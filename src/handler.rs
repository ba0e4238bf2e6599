use vstd::prelude::*;
use crate::commands::{all_bulk, arity_of, message_of, validate, CommandInfo, Rejection};
use crate::db::{apply, Db, ObjModel};
use crate::resp::{decode, Resp, Value};

verus! {

/// One request against the store: a valid one is executed; an invalid one
/// gets an error reply naming the problem and leaves the store alone.
pub open spec fn serve_spec(m: Map<Seq<char>, ObjModel>, request: Value) -> (Map<Seq<char>, ObjModel>, Value) {
    match validate(request) {
        Ok(req) => apply(m, req),
        Err(e) => (m, Value::Error(message_of(e))),
    }
}

/// Validates `request` and executes it against `db`: see [`serve_spec`].
pub fn serve(db: &mut Db, request: Resp) -> (r: Resp)
    requires
        old(db).wf(),
    ensures
        final(db).wf(),
        (final(db)@, r@) == serve_spec(old(db)@, request@),
{
    match CommandInfo::from_resp(request) {
        Ok(cmd) => db.execute(cmd),
        Err(e) => Resp::Error(e.message()),
    }
}

/// What a connection does next with the bytes it has received.
pub enum Incoming {
    /// The bytes hold no whole request yet: read more.
    Wait,
    /// The peer closed the connection and nothing is left: close it.
    Done,
    /// A request, with the number of bytes it took.
    Request(Resp, usize),
}

/// The next step of a connection that has received `buf`, where `closed`
/// says that the peer will send nothing more.
pub fn next_request(buf: &[u8], closed: bool) -> (r: Incoming)
    ensures
        closed && buf@.len() == 0 ==> r is Done,
        !(closed && buf@.len() == 0) ==> match decode(buf@, closed) {
            None => r is Wait,
            Some((v, n)) => r matches Incoming::Request(x, m) && x@ == v && m == n && 0 < n <= buf@.len(),
        },
{
    if closed && buf.len() == 0 {
        return Incoming::Done;
    }
    match Resp::parse(buf, closed) {
        None => Incoming::Wait,
        Some((x, n)) => {
            proof {
                crate::resp::lemma_decode_progress(buf@, closed);
            }
            Incoming::Request(x, n)
        },
    }
}


/// A request of a known command with the wrong number of elements gets an
/// error reply and leaves the store as it was, so the request after it is
/// served just as if it had not come.
pub proof fn lemma_wrong_arity_rejected(m: Map<Seq<char>, ObjModel>, items: Seq<Value>, next: Value)
    requires
        items.len() > 0,
        all_bulk(items),
        arity_of(items[0]->Bulk_0) matches Some(n) && items.len() != n,
    ensures
        serve_spec(m, Value::Array(items)) == (m, Value::Error(message_of(Rejection::WrongArity(items[0]->Bulk_0)))),
        serve_spec(serve_spec(m, Value::Array(items)).0, next) == serve_spec(m, next),
{
}

} // verus!
