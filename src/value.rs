//! Decoded server replies.
use vstd::prelude::*;

verus! {

broadcast use vstd::std_specs::vec::group_vec_axioms;

/// A reply as the protocol states it, with integers and byte strings as
/// mathematical values.
pub enum Reply {
    Nil,
    Int(int),
    Data(Seq<u8>),
    Bulk(Seq<Reply>),
    Status(Seq<u8>),
    Error(Seq<u8>),
}

/// A decoded server reply.
#[derive(Debug, PartialEq, Eq)]
pub enum Value {
    /// A null bulk string or a null array.
    Nil,
    /// An integer reply.
    Integer(i64),
    /// A bulk string; binary safe, and an empty one is not `Nil`.
    Data(Vec<u8>),
    /// An array of replies.
    Bulk(Vec<Value>),
    /// A status line such as `OK`.
    Status(Vec<u8>),
    /// An error line sent by the server: a normal reply, not a failure.
    ErrorReply(Vec<u8>),
}

impl View for Value {
    type V = Reply;

    open spec fn view(&self) -> Reply
        decreases self,
    {

        match self {
            Value::Nil => Reply::Nil,
            Value::Integer(i) => Reply::Int(*i as int),
            Value::Data(d) => Reply::Data(d@),
            Value::Bulk(items) => Reply::Bulk(
                Seq::new(
                    items.len() as nat,
                    |i: int|
                        if 0 <= i < items.len() {
                            items[i].view()
                        } else {
                            Reply::Nil
                        },
                ),
            ),
            Value::Status(s) => Reply::Status(s@),
            Value::ErrorReply(s) => Reply::Error(s@),
        }
    }
}

/// The replies that `items` stand for, in order.
pub open spec fn views(items: Seq<Value>) -> Seq<Reply> {
    items.map_values(|v: Value| v@)
}

pub proof fn lemma_bulk_view(items: Vec<Value>)
    ensures
        Value::Bulk(items)@ == Reply::Bulk(views(items@)),
{
    let v = Value::Bulk(items);
    let s = v@->Bulk_0;
    assert(s.len() == items.len());
    assert forall|i: int| 0 <= i < items.len() implies #[trigger] s[i] == views(items@)[i] by {}
    assert(s =~= views(items@));
}

/// Index of the first space in `s` at or after `i`, or the length of `s`.
pub open spec fn word_end(s: Seq<u8>, i: int) -> int
    decreases s.len() - i,
{
    if i < 0 || i >= s.len() {
        s.len() as int
    } else if s[i] == 32 {
        i
    } else {
        word_end(s, i + 1)
    }
}

/// The kind of an error line: its leading word, where it has one.
pub open spec fn error_code(s: Seq<u8>) -> Option<Seq<u8>> {
    if word_end(s, 0) == 0 {
        None
    } else {
        Some(s.take(word_end(s, 0)))
    }
}

impl Value {
    /// The kind tag of an error reply (`WRONGTYPE` in `WRONGTYPE Operation
    /// against a key`): the text before the first space. `None` for an error
    /// line that starts with a space or is empty, and for any other reply.
    pub fn error_kind(&self) -> (r: Option<Vec<u8>>)
        ensures
            match self {
                Value::ErrorReply(s) => match error_code(s@) {
                    Some(code) => r matches Some(v) && v@ == code,
                    None => r is None,
                },
                _ => r is None,
            },
    {
        match self {
            Value::ErrorReply(s) => {
                let mut i: usize = 0;
                while i < s.len()
                    invariant
                        i <= s@.len(),
                        word_end(s@, 0) == word_end(s@, i as int),
                    ensures
                        i <= s@.len(),
                        word_end(s@, 0) == i,
                    decreases s@.len() - i,
                {
                    if s[i] == 32 {
                        break;
                    }
                    i += 1;
                }
                if i == 0 {
                    None
                } else {
                    let mut code: Vec<u8> = Vec::new();
                    let mut j: usize = 0;
                    while j < i
                        invariant
                            j <= i <= s@.len(),
                            word_end(s@, 0) == i,
                            code@ == s@.take(j as int),
                        decreases i - j,
                    {
                        code.push(s[j]);
                        j += 1;
                        assert(code@ =~= s@.take(j as int));
                    }
                    Some(code)
                }
            },
            _ => None,
        }
    }
}

} // verus!
