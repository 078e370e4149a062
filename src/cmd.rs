//! Building commands and packing them into RESP requests.
use vstd::prelude::*;
use crate::resp::{
    bulk_size, bulk_string, bulk_strings, countdigits, crlf, decimal, lemma_bulk_string_len, lemma_bulk_strings_append,
    lemma_digits_match_text, lemma_num_digits_u64, lemma_request_len, num_digits, push_bulk,
    push_decimal, request,
};

verus! {

/// One argument of a command, as the contracts see it.
pub enum Argument {
    /// A byte string, sent as it is.
    Literal(Seq<u8>),
    /// The place where the scan cursor is written when the command is packed.
    CursorPlaceholder,
}

/// One argument of a command.
#[derive(Clone)]
pub enum Arg {
    Simple(Vec<u8>),
    Cursor,
}

impl View for Arg {
    type V = Argument;

    open spec fn view(&self) -> Argument {
        match self {
            Arg::Simple(v) => Argument::Literal(v@),
            Arg::Cursor => Argument::CursorPlaceholder,
        }
    }
}

/// The abstract content of a command: its arguments and its cursor.
pub struct CmdView {
    pub args: Seq<Argument>,
    pub cursor: Option<u64>,
}

/// Number of cursor placeholders among `args`.
pub open spec fn cursor_count(args: Seq<Argument>) -> nat
    decreases args.len(),
{
    if args.len() == 0 {
        0
    } else {
        cursor_count(args.drop_last()) + if args.last() is CursorPlaceholder {
            1nat
        } else {
            0nat
        }
    }
}

/// The byte strings that are sent for `args`, with `cursor` written in
/// decimal in place of the placeholder.
pub open spec fn resolve(args: Seq<Argument>, cursor: u64) -> Seq<Seq<u8>> {
    args.map_values(
        |a: Argument|
            match a {
                Argument::Literal(b) => b,
                Argument::CursorPlaceholder => decimal(cursor as nat),
            },
    )
}

/// The request that packs `args` with `cursor`.
pub open spec fn packed(args: Seq<Argument>, cursor: u64) -> Seq<u8> {
    request(resolve(args, cursor))
}

/// Represents redis commands.
#[derive(Clone)]
pub struct Cmd {
    args: Vec<Arg>,
    cursor: Option<u64>,
}

impl View for Cmd {
    type V = CmdView;

    closed spec fn view(&self) -> CmdView {
        CmdView { args: self.args@.map_values(|a: Arg| a@), cursor: self.cursor }
    }
}

impl Cmd {
    /// A command holds at most one cursor placeholder, and it holds one
    /// exactly when it has a cursor.
    pub open spec fn wf(&self) -> bool {
        &&& cursor_count(self@.args) <= 1
        &&& (self@.cursor is Some <==> cursor_count(self@.args) == 1)
    }

    /// Creates a new empty command.
    pub fn new() -> (r: Cmd)
        ensures
            r.wf(),
            r@.args == Seq::<Argument>::empty(),
            r@.cursor is None,
    {
        let r = Cmd { args: Vec::new(), cursor: None };
        assert(r@.args =~= Seq::<Argument>::empty());
        r
    }

    /// Appends a byte string argument.
    pub fn arg(&mut self, arg: &[u8]) -> (r: &mut Cmd)
        requires
            old(self).wf(),
        ensures
            r.wf(),
            r@.args == old(self)@.args.push(Argument::Literal(arg@)),
            r@.cursor == old(self)@.cursor,
            *final(self) == *final(r),
    {
        let ghost before = self@.args;
        let mut bytes: Vec<u8> = Vec::new();
        let mut i: usize = 0;
        while i < arg.len()
            invariant
                i <= arg@.len(),
                bytes@ == arg@.subrange(0, i as int),
            decreases arg@.len() - i,
        {
            bytes.push(arg[i]);
            i += 1;
            assert(bytes@ =~= arg@.subrange(0, i as int));
        }
        assert(arg@.subrange(0, arg@.len() as int) =~= arg@);
        self.args.push(Arg::Simple(bytes));
        assert(self@.args =~= before.push(Argument::Literal(arg@)));
        assert(self@.args.drop_last() =~= before);
        self
    }

    /// Appends the cursor placeholder, with `cursor` as the cursor.
    pub fn cursor_arg(&mut self, cursor: u64) -> (r: &mut Cmd)
        requires
            old(self).wf(),
            old(self)@.cursor is None,
        ensures
            r.wf(),
            r@.args == old(self)@.args.push(Argument::CursorPlaceholder),
            r@.cursor == Some(cursor),
            *final(self) == *final(r),
    {
        let ghost before = self@.args;
        self.cursor = Some(cursor);
        self.args.push(Arg::Cursor);
        assert(self@.args =~= before.push(Argument::CursorPlaceholder));
        assert(self@.args.drop_last() =~= before);
        self
    }

    /// Returns the packed command as a byte vector; without a cursor the
    /// placeholder-free arguments are packed as they are.
    pub fn get_packed_command(&self) -> (r: Vec<u8>)
        ensures
            r@ == packed(
                self@.args,
                match self@.cursor {
                    Some(c) => c,
                    None => 0,
                },
            ),
    {
        let c = match self.cursor {
            Some(c) => c,
            None => 0,
        };
        encode_command(&self.args, c)
    }

    /// Like `get_packed_command` but writes `cursor` in place of the
    /// stored cursor; `None` if the command is not in scan mode.
    pub fn get_packed_command_with_cursor(&self, cursor: u64) -> (r: Option<Vec<u8>>)
        ensures
            self@.cursor is None ==> r is None,
            self@.cursor is Some ==> r is Some && r->Some_0@ == packed(self@.args, cursor),
    {
        if !self.in_scan_mode() {
            None
        } else {
            Some(encode_command(&self.args, cursor))
        }
    }

    /// Returns true if the command is in scan mode.
    pub fn in_scan_mode(&self) -> (r: bool)
        ensures
            r == self@.cursor is Some,
    {
        self.cursor.is_some()
    }
}

/// Size of the bulk string of a `len`-byte payload; `None` where it does
/// not fit in `usize`.
pub fn bulklen(len: usize) -> (r: Option<usize>)
    ensures
        r == (if bulk_size(len as nat) <= usize::MAX {
            Some(bulk_size(len as nat) as usize)
        } else {
            None::<usize>
        }),
{
    let d = countdigits(len as u64);
    proof {
        lemma_num_digits_u64(len as u64);
    }
    len.checked_add(d + 5)
}

/// The bytes that stand for `a`, with `cursor` in place of the placeholder.
fn arg_len(a: &Arg, cursor: u64) -> (r: usize)
    ensures
        r == resolve(seq![a@], cursor)[0].len(),
{
    match a {
        Arg::Simple(v) => v.len(),
        Arg::Cursor => {
            proof {
                lemma_digits_match_text(cursor as nat);
            }
            countdigits(cursor)
        },
    }
}

/// Size of the request that packs `args` with `cursor`, computed before
/// any byte is written; `None` where it does not fit in `usize`.
pub fn packed_len(args: &Vec<Arg>, cursor: u64) -> (r: Option<usize>)
    ensures
        r == (if packed(args@.map_values(|a: Arg| a@), cursor).len() <= usize::MAX {
            Some(packed(args@.map_values(|a: Arg| a@), cursor).len() as usize)
        } else {
            None::<usize>
        }),
{
    let ghost model = args@.map_values(|a: Arg| a@);
    let ghost parts = resolve(model, cursor);
    proof {
        lemma_request_len(parts);
        lemma_num_digits_u64(args.len() as u64);
    }
    let mut total: usize = 3 + countdigits(args.len() as u64);
    let mut i: usize = 0;
    while i < args.len()
        invariant
            i <= args@.len(),
            model == args@.map_values(|a: Arg| a@),
            parts == resolve(model, cursor),
            parts.len() == args@.len(),
            total == 3 + num_digits(parts.len()) + bulk_strings(parts.take(i as int)).len(),
        decreases args@.len() - i,
    {
        let n = arg_len(&args[i], cursor);
        assert(n == parts[i as int].len());
        let b = bulklen(n);
        proof {
            lemma_bulk_string_len(parts[i as int]);
            assert(parts.take(i + 1).drop_last() =~= parts.take(i as int));
            assert(parts.take(i + 1).last() == parts[i as int]);
            assert(bulk_strings(parts.take(i + 1)) == bulk_strings(parts.take(i as int))
                + bulk_string(parts[i as int]));
            lemma_bulk_strings_append(parts.take(i + 1), parts.skip(i + 1));
            assert(parts.take(i + 1) + parts.skip(i + 1) =~= parts);
            lemma_request_len(parts);
            assert(packed(model, cursor).len() >= 3 + num_digits(parts.len()) + bulk_strings(
                parts.take(i + 1),
            ).len());
        }
        match b {
            None => {
                return None;
            },
            Some(b) => {
                match total.checked_add(b) {
                    None => {
                        return None;
                    },
                    Some(t) => {
                        total = t;
                    },
                }
            },
        }
        i += 1;
    }
    assert(parts.take(i as int) =~= parts);
    Some(total)
}

/// Packs `args` into a request, writing `cursor` in place of the cursor
/// placeholder.
pub fn encode_command(args: &Vec<Arg>, cursor: u64) -> (r: Vec<u8>)
    ensures
        r@ == packed(args@.map_values(|a: Arg| a@), cursor),
{
    let ghost model = args@.map_values(|a: Arg| a@);
    let ghost parts = resolve(model, cursor);
    let capacity = match packed_len(args, cursor) {
        Some(n) => n,
        None => 0,
    };
    let mut cmd: Vec<u8> = Vec::with_capacity(capacity);
    cmd.push(42u8);
    push_decimal(&mut cmd, args.len() as u64);
    cmd.push(13u8);
    cmd.push(10u8);
    let mut digits: Vec<u8> = Vec::new();
    push_decimal(&mut digits, cursor);
    assert(digits@ =~= decimal(cursor as nat));
    let mut i: usize = 0;
    while i < args.len()
        invariant
            i <= args@.len(),
            model == args@.map_values(|a: Arg| a@),
            parts == resolve(model, cursor),
            parts.len() == args@.len(),
            digits@ == decimal(cursor as nat),
            cmd@ == seq![42u8] + decimal(parts.len()) + crlf() + bulk_strings(
                parts.take(i as int),
            ),
        decreases args@.len() - i,
    {
        match &args[i] {
            Arg::Cursor => push_bulk(&mut cmd, digits.as_slice()),
            Arg::Simple(v) => push_bulk(&mut cmd, v.as_slice()),
        }
        proof {
            assert(parts.take(i + 1).drop_last() =~= parts.take(i as int));
            assert(parts.take(i + 1).last() == parts[i as int]);
        }
        i += 1;
    }
    assert(parts.take(i as int) =~= parts);
    cmd
}

} // verus!

verus! {

proof fn lemma_no_placeholder(args: Seq<Argument>)
    requires
        cursor_count(args) == 0,
    ensures
        forall|i: int| 0 <= i < args.len() ==> !(#[trigger] args[i] is CursorPlaceholder),
    decreases args.len(),
{
    if args.len() > 0 {
        lemma_no_placeholder(args.drop_last());
        assert forall|i: int| 0 <= i < args.len() implies !(#[trigger] args[i] is CursorPlaceholder) by {
            if i < args.len() - 1 {
                assert(args[i] == args.drop_last()[i]);
            }
        }
    }
}

proof fn lemma_resolve_without_cursor(args: Seq<Argument>, c1: u64, c2: u64)
    requires
        cursor_count(args) == 0,
    ensures
        resolve(args, c1) == resolve(args, c2),
{
    lemma_no_placeholder(args);
    assert(resolve(args, c1) =~= resolve(args, c2));
}

proof fn lemma_cursor_count_append(a: Seq<Argument>, b: Seq<Argument>)
    ensures
        cursor_count(a + b) == cursor_count(a) + cursor_count(b),
    decreases b.len(),
{
    if b.len() == 0 {
        assert(a + b =~= a);
    } else {
        lemma_cursor_count_append(a, b.drop_last());
        assert((a + b).drop_last() =~= a + b.drop_last());
    }
}

proof fn lemma_cursor_index(args: Seq<Argument>) -> (k: int)
    requires
        cursor_count(args) == 1,
    ensures
        0 <= k < args.len(),
        args[k] is CursorPlaceholder,
        cursor_count(args.take(k)) == 0,
        cursor_count(args.skip(k + 1)) == 0,
    decreases args.len(),
{
    if args.last() is CursorPlaceholder {
        let k = args.len() - 1;
        assert(args.take(k) =~= args.drop_last());
        assert(args.skip(k + 1) =~= Seq::<Argument>::empty());
        k
    } else {
        let k = lemma_cursor_index(args.drop_last());
        assert(args.take(k) =~= args.drop_last().take(k));
        assert(args.skip(k + 1) =~= args.drop_last().skip(k + 1).push(args.last()));
        assert(args.skip(k + 1).drop_last() =~= args.drop_last().skip(k + 1));
        k
    }
}

/// Packing a command that has no cursor gives the same bytes whatever
/// cursor value is passed.
pub proof fn lemma_packed_ignores_cursor(cmd: Cmd, c1: u64, c2: u64)
    requires
        cmd.wf(),
        cmd@.cursor is None,
    ensures
        packed(cmd@.args, c1) == packed(cmd@.args, c2),
{
    lemma_resolve_without_cursor(cmd@.args, c1, c2);
}

/// Packing a command in scan mode with different cursor values gives the
/// same bytes before and after the cursor's bulk string, which alone
/// (its length prefix and its digits) depends on the cursor.
pub proof fn lemma_cursor_field(cmd: Cmd) -> (r: (Seq<u8>, Seq<u8>))
    requires
        cmd.wf(),
        cmd@.cursor is Some,
    ensures
        forall|c: u64|
            #[trigger] packed(cmd@.args, c) == r.0 + bulk_string(decimal(c as nat)) + r.1,
{
    let args = cmd@.args;
    let k = lemma_cursor_index(args);
    let pre = args.take(k);
    let post = args.skip(k + 1);
    let head = seq![42u8] + decimal(args.len()) + crlf() + bulk_strings(resolve(pre, 0));
    let tail = bulk_strings(resolve(post, 0));
    assert forall|c: u64|
        #[trigger] packed(args, c) == head + bulk_string(decimal(c as nat)) + tail by {
        lemma_resolve_without_cursor(pre, c, 0);
        lemma_resolve_without_cursor(post, c, 0);
        let parts = resolve(args, c);
        assert(parts =~= resolve(pre, c).push(decimal(c as nat)) + resolve(post, c));
        lemma_bulk_strings_append(resolve(pre, c).push(decimal(c as nat)), resolve(post, c));
        assert(resolve(pre, c).push(decimal(c as nat)).drop_last() =~= resolve(pre, c));
        assert(packed(args, c) =~= head + bulk_string(decimal(c as nat)) + tail);
    }
    (head, tail)
}

} // verus!
