//! A client for the Redis wire protocol: a command builder with its request
//! encoder, a resumable reply decoder and the buffering state of a
//! non-blocking transport.
use vstd::prelude::*;

pub mod resp;
pub mod value;
pub mod cmd;
pub mod parser;
pub mod transport;
pub mod roundtrip;

pub use cmd::Cmd;
pub use parser::{decode, Decoded};
pub use transport::{Polled, RedisTransport};
pub use value::Value;

verus! {

/// The entry point from which connections are made.
pub struct Client {
    _private: (),
}

impl Client {
    pub fn new() -> (r: Client) {
        Client { _private: () }
    }
}

/// The command that reads `keys`: `GET` for one key, `MGET` for several.
pub fn get_cmd(keys: &Vec<Vec<u8>>) -> (r: Cmd)
    ensures
        r.wf(),
        r@.cursor is None,
        r@.args.len() == keys@.len() + 1,
        r@.args[0] == cmd::Argument::Literal(
            if keys@.len() == 1 {
                seq![71u8, 69u8, 84u8]
            } else {
                seq![77u8, 71u8, 69u8, 84u8]
            },
        ),
        forall|i: int|
            0 <= i < keys@.len() ==> r@.args[i + 1] == cmd::Argument::Literal(#[trigger] keys@[i]@),
{
    let mut c = Cmd::new();
    let name: Vec<u8> = if keys.len() == 1 {
        vec![71u8, 69u8, 84u8]
    } else {
        vec![77u8, 71u8, 69u8, 84u8]
    };
    c.arg(name.as_slice());
    let mut i: usize = 0;
    while i < keys.len()
        invariant
            i <= keys@.len(),
            c.wf(),
            c@.cursor is None,
            c@.args.len() == i + 1,
            c@.args[0] == cmd::Argument::Literal(
                if keys@.len() == 1 {
                    seq![71u8, 69u8, 84u8]
                } else {
                    seq![77u8, 71u8, 69u8, 84u8]
                },
            ),
            forall|j: int| 0 <= j < i ==> c@.args[j + 1] == cmd::Argument::Literal(#[trigger] keys@[j]@),
        decreases keys@.len() - i,
    {
        c.arg(keys[i].as_slice());
        i += 1;
    }
    c
}

/// The command that sets `key` to `value`.
pub fn set_cmd(key: &[u8], value: &[u8]) -> (r: Cmd)
    ensures
        r.wf(),
        r@.cursor is None,
        r@.args == seq![
            cmd::Argument::Literal(seq![83u8, 69u8, 84u8]),
            cmd::Argument::Literal(key@),
            cmd::Argument::Literal(value@),
        ],
{
    let mut c = Cmd::new();
    let name: Vec<u8> = vec![83u8, 69u8, 84u8];
    c.arg(name.as_slice()).arg(key).arg(value);
    c
}

} // verus!
