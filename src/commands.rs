use vstd::prelude::*;
use vstd::utf8::{decode_utf8, valid_utf8};
use crate::resp::{append_bytes, views, Resp, Value};

verus! {

/// `ping`
pub open spec fn ping_name() -> Seq<u8> {
    seq![112u8, 105, 110, 103]
}

/// `set`
pub open spec fn set_name() -> Seq<u8> {
    seq![115u8, 101, 116]
}

/// `get`
pub open spec fn get_name() -> Seq<u8> {
    seq![103u8, 101, 116]
}

/// `del`
pub open spec fn del_name() -> Seq<u8> {
    seq![100u8, 101, 108]
}

/// `lpush`
pub open spec fn lpush_name() -> Seq<u8> {
    seq![108u8, 112, 117, 115, 104]
}

/// `rpop`
pub open spec fn rpop_name() -> Seq<u8> {
    seq![114u8, 112, 111, 112]
}

/// The command table: each supported name with its arity, the exact length
/// of a request array for it, the name included.
pub open spec fn table() -> Seq<(Seq<u8>, int)> {
    seq![
        (ping_name(), 1int),
        (set_name(), 3int),
        (get_name(), 2int),
        (del_name(), 2int),
        (lpush_name(), 3int),
        (rpop_name(), 2int),
    ]
}

/// The arity of the command called `name` (matched exactly, case
/// included), if the table has it.
pub open spec fn arity_of(name: Seq<u8>) -> Option<int> {
    if name == ping_name() {
        Some(1)
    } else if name == set_name() {
        Some(3)
    } else if name == get_name() {
        Some(2)
    } else if name == del_name() {
        Some(2)
    } else if name == lpush_name() {
        Some(3)
    } else if name == rpop_name() {
        Some(2)
    } else {
        None
    }
}

/// An entry of the command table: a name and its arity.
#[derive(Debug, Clone, Copy, PartialEq, Eq)]
pub struct Command<'a>(pub &'a [u8], pub i8);

/// A validated request: the command's name, its key (empty for a command
/// without one) and the arguments after the key, as raw bytes.
#[derive(Debug, Clone, PartialEq, Eq)]
pub struct CommandInfo {
    pub name: Vec<u8>,
    pub key: String,
    pub args: Vec<Vec<u8>>,
}

/// Abstract value of a validated request.
pub struct Request {
    pub name: Seq<u8>,
    pub key: Seq<char>,
    pub args: Seq<Seq<u8>>,
}

impl View for CommandInfo {
    type V = Request;

    open spec fn view(&self) -> Request {
        Request { name: self.name@, key: self.key@, args: byte_strings(self.args@) }
    }
}

/// Views of a sequence of byte vectors.
pub open spec fn byte_strings(v: Seq<Vec<u8>>) -> Seq<Seq<u8>> {
    Seq::new(v.len(), |i: int| v[i]@)
}

/// Why a request was turned down.
#[derive(Debug, Clone, PartialEq, Eq)]
pub enum CommandError {
    /// The request is not a non-empty array of bulk strings.
    Protocol,
    /// No command of this name is in the table.
    UnknownCommand(Vec<u8>),
    /// The request's length is not the command's arity.
    WrongArity(Vec<u8>),
    /// An argument is not a bulk string.
    ArgsType,
    /// The key is not valid UTF-8.
    KeyType,
}

/// Abstract value of a [`CommandError`].
pub enum Rejection {
    Protocol,
    UnknownCommand(Seq<u8>),
    WrongArity(Seq<u8>),
    ArgsType,
    KeyType,
}

impl View for CommandError {
    type V = Rejection;

    open spec fn view(&self) -> Rejection {
        match self {
            CommandError::Protocol => Rejection::Protocol,
            CommandError::UnknownCommand(n) => Rejection::UnknownCommand(n@),
            CommandError::WrongArity(n) => Rejection::WrongArity(n@),
            CommandError::ArgsType => Rejection::ArgsType,
            CommandError::KeyType => Rejection::KeyType,
        }
    }
}

/// Whether every element is a bulk string.
pub open spec fn all_bulk(items: Seq<Value>) -> bool {
    forall|i: int| 0 <= i < items.len() ==> #[trigger] items[i] is Bulk
}

/// The payloads of bulk strings, in order.
pub open spec fn payloads(items: Seq<Value>) -> Seq<Seq<u8>> {
    Seq::new(items.len(), |i: int| items[i]->Bulk_0)
}

/// The characters of `b`, or none where `b` is not valid UTF-8.
pub open spec fn text_of(b: Seq<u8>) -> Seq<char> {
    if valid_utf8(b) {
        decode_utf8(b)
    } else {
        Seq::empty()
    }
}

/// What reading the key and arguments of a request array gives: the key
/// from element one, the arguments from the elements after it.
pub open spec fn key_and_args(items: Seq<Value>) -> Result<(Seq<char>, Seq<Seq<u8>>), Rejection> {
    if items.len() < 2 {
        Ok((Seq::empty(), Seq::empty()))
    } else if !(items[1] is Bulk) {
        Err(Rejection::ArgsType)
    } else if !valid_utf8(items[1]->Bulk_0) {
        Err(Rejection::KeyType)
    } else if !all_bulk(items.subrange(2, items.len() as int)) {
        Err(Rejection::ArgsType)
    } else {
        Ok((decode_utf8(items[1]->Bulk_0), payloads(items.subrange(2, items.len() as int))))
    }
}

/// Validation of a request: a non-empty array of bulk strings whose first
/// element names a command of the table, with exactly its arity, and a key
/// in UTF-8 where the command takes one.
pub open spec fn validate(v: Value) -> Result<Request, Rejection> {
    match v {
        Value::Array(items) => if items.len() == 0 || !all_bulk(items) {
            Err(Rejection::Protocol)
        } else {
            let name = items[0]->Bulk_0;
            match arity_of(name) {
                None => Err(Rejection::UnknownCommand(name)),
                Some(n) => if items.len() != n {
                    Err(Rejection::WrongArity(name))
                } else {
                    match key_and_args(items) {
                        Err(e) => Err(e),
                        Ok((key, args)) => Ok(Request { name, key, args }),
                    }
                },
            }
        },
        _ => Err(Rejection::Protocol),
    }
}

/// Relies on `String::from_utf8`: it succeeds exactly on valid UTF-8, and
/// the string then holds those very bytes.
#[verifier::external_body]
fn utf8_string(bytes: Vec<u8>) -> (r: Option<String>)
    ensures
        r is Some <==> valid_utf8(bytes@),
        r matches Some(s) ==> vstd::utf8::encode_utf8(s@) == bytes@,
{
    String::from_utf8(bytes).ok()
}

/// A copy of `b`.
pub fn copy_bytes(b: &[u8]) -> (r: Vec<u8>)
    ensures
        r@ == b@,
{
    let mut r: Vec<u8> = Vec::new();
    append_bytes(&mut r, b);
    assert(r@ =~= b@);
    r
}

/// Whether `a` and `b` hold the same bytes.
pub fn bytes_eq(a: &[u8], b: &[u8]) -> (r: bool)
    ensures
        r == (a@ == b@),
{
    if a.len() != b.len() {
        return false;
    }
    let mut i: usize = 0;
    while i < a.len()
        invariant
            a@.len() == b@.len(),
            i <= a@.len(),
            a@.subrange(0, i as int) == b@.subrange(0, i as int),
        decreases a@.len() - i,
    {
        if a[i] != b[i] {
            assert(a@.subrange(0, i + 1)[i as int] != b@.subrange(0, i + 1)[i as int]);
            return false;
        }
        i = i + 1;
        assert(a@.subrange(0, i as int) =~= b@.subrange(0, i as int)) by {
            assert forall|k: int| 0 <= k < i implies a@[k] == b@[k] by {
                if k < i - 1 {
                    assert(a@.subrange(0, i - 1)[k] == b@.subrange(0, i - 1)[k]);
                }
            };
        };
    }
    assert(a@ =~= a@.subrange(0, i as int));
    assert(b@ =~= b@.subrange(0, i as int));
    true
}

/// The command table.
fn command_table() -> (t: Vec<(Vec<u8>, i8)>)
    ensures
        t@.len() == table().len(),
        forall|i: int|
            0 <= i < t@.len() ==> (#[trigger] t@[i]).0@ == table()[i].0 && t@[i].1 as int == table()[i].1,
{
    let t = vec![
        (vec![112u8, 105, 110, 103], 1i8),
        (vec![115u8, 101, 116], 3i8),
        (vec![103u8, 101, 116], 2i8),
        (vec![100u8, 101, 108], 2i8),
        (vec![108u8, 112, 117, 115, 104], 3i8),
        (vec![114u8, 112, 111, 112], 2i8),
    ];
    assert(t@[0].0@ =~= ping_name());
    assert(t@[1].0@ =~= set_name());
    assert(t@[2].0@ =~= get_name());
    assert(t@[3].0@ =~= del_name());
    assert(t@[4].0@ =~= lpush_name());
    assert(t@[5].0@ =~= rpop_name());
    t
}


/// `ERR Protocol error`
pub open spec fn protocol_text() -> Seq<u8> {
    seq![69u8, 82, 82, 32, 80, 114, 111, 116, 111, 99, 111, 108, 32, 101, 114, 114, 111, 114]
}

/// `ERR unknown command '`
pub open spec fn unknown_text() -> Seq<u8> {
    seq![69u8, 82, 82, 32, 117, 110, 107, 110, 111, 119, 110, 32, 99, 111, 109, 109, 97, 110, 100, 32, 39]
}

/// `ERR wrong number of arguments for '`
pub open spec fn arity_text() -> Seq<u8> {
    seq![
        69u8, 82, 82, 32, 119, 114, 111, 110, 103, 32, 110, 117, 109, 98, 101, 114, 32, 111, 102, 32,
        97, 114, 103, 117, 109, 101, 110, 116, 115, 32, 102, 111, 114, 32, 39,
    ]
}

/// `' command`
pub open spec fn command_text() -> Seq<u8> {
    seq![39u8, 32, 99, 111, 109, 109, 97, 110, 100]
}

/// `ERR args type wrong`
pub open spec fn args_text() -> Seq<u8> {
    seq![69u8, 82, 82, 32, 97, 114, 103, 115, 32, 116, 121, 112, 101, 32, 119, 114, 111, 110, 103]
}

/// `ERR key type wrong`
pub open spec fn key_text() -> Seq<u8> {
    seq![69u8, 82, 82, 32, 107, 101, 121, 32, 116, 121, 112, 101, 32, 119, 114, 111, 110, 103]
}

/// A command name as an error message shows it: itself where it is valid
/// UTF-8, else nothing.
pub open spec fn shown(name: Seq<u8>) -> Seq<u8> {
    if valid_utf8(name) {
        name
    } else {
        Seq::empty()
    }
}

/// The text of the error reply for a rejection.
pub open spec fn message_of(e: Rejection) -> Seq<u8> {
    match e {
        Rejection::Protocol => protocol_text(),
        Rejection::UnknownCommand(n) => unknown_text() + shown(n) + seq![39u8],
        Rejection::WrongArity(n) => arity_text() + shown(n) + command_text(),
        Rejection::ArgsType => args_text(),
        Rejection::KeyType => key_text(),
    }
}

impl CommandError {
    /// The text of the error reply for this rejection.
    pub fn message(&self) -> (r: Vec<u8>)
        ensures
            r@ == message_of(self@),
    {
        match self {
            CommandError::Protocol => {
                let r = vec![
                    69u8, 82, 82, 32, 80, 114, 111, 116, 111, 99, 111, 108, 32, 101, 114, 114, 111, 114,
                ];
                assert(r@ =~= protocol_text());
                r
            },
            CommandError::UnknownCommand(n) => {
                let mut r = vec![
                    69u8, 82, 82, 32, 117, 110, 107, 110, 111, 119, 110, 32, 99, 111, 109, 109, 97, 110,
                    100, 32, 39,
                ];
                assert(r@ =~= unknown_text());
                let shown_name = CommandInfo::slice_to_string(n.as_slice());
                proof {
                    lemma_shown_bytes(n@);
                }
                append_bytes(&mut r, shown_name.as_str().as_bytes());
                r.push(39u8);
                assert(r@ =~= message_of(self@));
                r
            },
            CommandError::WrongArity(n) => {
                let mut r = vec![
                    69u8, 82, 82, 32, 119, 114, 111, 110, 103, 32, 110, 117, 109, 98, 101, 114, 32, 111,
                    102, 32, 97, 114, 103, 117, 109, 101, 110, 116, 115, 32, 102, 111, 114, 32, 39,
                ];
                assert(r@ =~= arity_text());
                let shown_name = CommandInfo::slice_to_string(n.as_slice());
                proof {
                    lemma_shown_bytes(n@);
                }
                append_bytes(&mut r, shown_name.as_str().as_bytes());
                let tail = vec![39u8, 32, 99, 111, 109, 109, 97, 110, 100];
                append_bytes(&mut r, tail.as_slice());
                assert(tail@ =~= command_text());
                assert(r@ =~= message_of(self@));
                r
            },
            CommandError::ArgsType => {
                let r = vec![
                    69u8, 82, 82, 32, 97, 114, 103, 115, 32, 116, 121, 112, 101, 32, 119, 114, 111, 110, 103,
                ];
                assert(r@ =~= args_text());
                r
            },
            CommandError::KeyType => {
                let r = vec![69u8, 82, 82, 32, 107, 101, 121, 32, 116, 121, 112, 101, 32, 119, 114, 111, 110, 103];
                assert(r@ =~= key_text());
                r
            },
        }
    }
}

proof fn lemma_shown_bytes(n: Seq<u8>)
    ensures
        vstd::utf8::encode_utf8(text_of(n)) == shown(n),
{
    if valid_utf8(n) {
        vstd::utf8::decode_utf8_encode_utf8(n);
    } else {
        assert(vstd::utf8::encode_utf8(Seq::<char>::empty()) =~= Seq::<u8>::empty());
    }
}

impl CommandInfo {
    /// An empty request: no name, no key, no arguments.
    pub fn new() -> (r: Self)
        ensures
            r@.name.len() == 0,
            r@.key.len() == 0,
            r@.args.len() == 0,
    {
        let r = CommandInfo { name: Vec::new(), key: String::new(), args: Vec::new() };
        assert(r@.args =~= Seq::<Seq<u8>>::empty());
        r
    }

    /// Looks `name` up in the command table (exact match, case included):
    /// its entry, or an unknown-command error naming it.
    pub fn find_command<'a>(name: &'a [u8]) -> (r: Result<Command<'a>, CommandError>)
        ensures
            match arity_of(name@) {
                Some(n) => r matches Ok(c) && c.0@ == name@ && c.1 as int == n,
                None => r matches Err(e) && e@ == Rejection::UnknownCommand(name@),
            },
    {
        let cmd_table = command_table();
        let mut i: usize = 0;
        while i < cmd_table.len()
            invariant
                i <= cmd_table@.len(),
                cmd_table@.len() == table().len(),
                forall|k: int|
                    0 <= k < cmd_table@.len() ==> (#[trigger] cmd_table@[k]).0@ == table()[k].0
                        && cmd_table@[k].1 as int == table()[k].1,
                forall|k: int| 0 <= k < i ==> table()[k].0 != name@,
            decreases cmd_table@.len() - i,
        {
            if bytes_eq(name, cmd_table[i].0.as_slice()) {
                proof {
                    lemma_table_agrees(name@, i as int);
                }
                return Ok(Command(name, cmd_table[i].1));
            }
            i = i + 1;
        }
        proof {
            assert(table()[0].0 != name@);
            assert(table()[1].0 != name@);
            assert(table()[2].0 != name@);
            assert(table()[3].0 != name@);
            assert(table()[4].0 != name@);
            assert(table()[5].0 != name@);
        }
        Err(CommandError::UnknownCommand(copy_bytes(name)))
    }

    /// Validates a request: see [`validate`].
    pub fn from_resp(resp: Resp) -> (r: Result<Self, CommandError>)
        ensures
            match validate(resp@) {
                Ok(req) => r matches Ok(c) && c@ == req,
                Err(e) => r matches Err(x) && x@ == e,
            },
    {
        let ghost v = resp@;
        match resp {
            Resp::Array(bulks) => {
                assert(v == Value::Array(views(bulks@))) by {
                    assert(v->Array_0 =~= views(bulks@));
                };
                if bulks.len() == 0 {
                    return Err(CommandError::Protocol);
                }
                let mut i: usize = 0;
                while i < bulks.len()
                    invariant
                        v == resp@,
                        v == Value::Array(views(bulks@)),
                        i <= bulks@.len(),
                        forall|k: int| 0 <= k < i ==> #[trigger] bulks@[k] is Bulk,
                    decreases bulks@.len() - i,
                {
                    match &bulks[i] {
                        Resp::Bulk(_) => {},
                        _ => {
                            assert(!(views(bulks@)[i as int] is Bulk));
                            assert(!all_bulk(views(bulks@)));
                            return Err(CommandError::Protocol);
                        },
                    }
                    i = i + 1;
                }
                assert(all_bulk(views(bulks@)));
                let name: Vec<u8> = match &bulks[0] {
                    Resp::Bulk(n) => copy_bytes(n.as_slice()),
                    _ => {
                        return Err(CommandError::Protocol);
                    },
                };
                let arity: i8 = match CommandInfo::find_command(name.as_slice()) {
                    Ok(c) => c.1,
                    Err(e) => {
                        return Err(e);
                    },
                };
                if bulks.len() != arity as usize {
                    return Err(CommandError::WrongArity(name));
                }
                let mut cmd = CommandInfo::new();
                cmd.name = name;
                if arity > 1 {
                    match cmd.parse_bulks(bulks) {
                        Ok(()) => {},
                        Err(e) => {
                            return Err(e);
                        },
                    }
                } else {
                    assert(cmd@.key =~= Seq::<char>::empty());
                    assert(cmd@.args =~= Seq::<Seq<u8>>::empty());
                }
                Ok(cmd)
            },
            _ => Err(CommandError::Protocol),
        }
    }

    /// Reads the key from element one of `bulks` and appends the payloads of
    /// the elements after it to the arguments; the name stays as it is.
    pub fn parse_bulks(&mut self, bulks: Vec<Resp>) -> (r: Result<(), CommandError>)
        ensures
            final(self).name@ == old(self).name@,
            match key_and_args(views(bulks@)) {
                Ok((key, args)) => r is Ok && final(self)@.args == old(self)@.args + args && (
                bulks@.len() >= 2 ==> final(self)@.key == key) && (bulks@.len() < 2
                    ==> final(self)@.key == old(self)@.key),
                Err(e) => r matches Err(x) && x@ == e,
            },
    {
        let ghost items = views(bulks@);
        let ghost old_args = self@.args;
        let mut i: usize = 1;
        while i < bulks.len()
            invariant
                items == views(bulks@),
                1 <= i,
                i <= bulks@.len() || bulks@.len() < 2,
                self.name@ == old(self).name@,
                bulks@.len() < 2 ==> self@ == old(self)@,
                i >= 2 ==> items[1] is Bulk && valid_utf8(items[1]->Bulk_0) && self@.key == decode_utf8(
                    items[1]->Bulk_0,
                ),
                i >= 2 ==> all_bulk(items.subrange(2, i as int)),
                i >= 2 ==> self@.args == old_args + payloads(items.subrange(2, i as int)),
                i < 2 ==> self@.args == old_args,
            decreases bulks@.len() - i,
        {
            match &bulks[i] {
                Resp::Bulk(t) => {
                    if i == 1 {
                        match utf8_string(copy_bytes(t.as_slice())) {
                            Some(s) => {
                                proof {
                                    vstd::utf8::encode_utf8_decode_utf8(s@);
                                }
                                self.key = s;
                                assert(items.subrange(2, 2) =~= Seq::<Value>::empty());
                                assert(payloads(items.subrange(2, 2)) =~= Seq::<Seq<u8>>::empty());
                                assert(old_args + payloads(items.subrange(2, 2)) =~= old_args);
                            },
                            None => {
                                return Err(CommandError::KeyType);
                            },
                        }
                    } else {
                        let ghost prev = self@.args;
                        let payload = copy_bytes(t.as_slice());
                        self.args.push(payload);
                        assert(self@.args =~= prev.push(t@));
                        assert(items.subrange(2, i + 1) =~= items.subrange(2, i as int).push(items[i as int]));
                        assert(payloads(items.subrange(2, i + 1)) =~= payloads(items.subrange(2, i as int)).push(
                            t@,
                        ));
                        assert(self@.args =~= old_args + payloads(items.subrange(2, i + 1)));
                    }
                },
                _ => {
                    if i >= 2 {
                        assert(!(items.subrange(2, items.len() as int)[i - 2] is Bulk));
                    }
                    return Err(CommandError::ArgsType);
                },
            }
            i = i + 1;
        }
        proof {
            if bulks@.len() >= 2 {
                assert(items.subrange(2, items.len() as int) =~= items.subrange(2, i as int));
            } else {
                assert(self@.args =~= old_args + Seq::<Seq<u8>>::empty());
            }
        }
        Ok(())
    }

    /// `slice` as a string where it is valid UTF-8, else the empty string.
    pub fn slice_to_string(slice: &[u8]) -> (r: String)
        ensures
            r@ == text_of(slice@),
    {
        match utf8_string(copy_bytes(slice)) {
            Some(s) => {
                proof {
                    vstd::utf8::encode_utf8_decode_utf8(s@);
                }
                s
            },
            None => String::new(),
        }
    }
}

/// An entry of the table whose name is `name`, with no earlier entry of
/// that name, gives `name`'s arity.
proof fn lemma_table_agrees(name: Seq<u8>, i: int)
    requires
        0 <= i < table().len(),
        table()[i].0 == name,
    ensures
        arity_of(name) == Some(table()[i].1),
{
    assert(ping_name() != set_name() && ping_name() != get_name() && ping_name() != del_name()
        && ping_name() != lpush_name() && ping_name() != rpop_name()) by {
        assert(ping_name().len() != set_name().len());
        assert(ping_name().len() != lpush_name().len());
        assert(ping_name()[0] != rpop_name()[0]);
    };
    assert(set_name() != get_name() && set_name() != del_name() && set_name() != lpush_name()
        && set_name() != rpop_name()) by {
        assert(set_name()[0] != get_name()[0]);
        assert(set_name()[0] != del_name()[0]);
        assert(set_name().len() != lpush_name().len());
    };
    assert(get_name() != del_name() && get_name() != lpush_name() && get_name() != rpop_name()) by {
        assert(get_name()[0] != del_name()[0]);
        assert(get_name().len() != lpush_name().len());
    };
    assert(del_name() != lpush_name() && del_name() != rpop_name()) by {
        assert(del_name().len() != lpush_name().len());
    };
    assert(lpush_name() != rpop_name()) by {
        assert(lpush_name().len() != rpop_name().len());
    };
}

} // verus!
