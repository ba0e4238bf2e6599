use std::collections::VecDeque;
use vstd::prelude::*;
use crate::commands::{
    bytes_eq, del_name, get_name, lpush_name, ping_name, rpop_name, set_name, CommandInfo, Request,
};
use crate::resp::{Resp, Value};

verus! {

/// `PONG`
pub open spec fn pong_text() -> Seq<u8> {
    seq![80u8, 79, 78, 71]
}

/// `OK`
pub open spec fn ok_text() -> Seq<u8> {
    seq![79u8, 75]
}

/// Abstract value of a stored object: a scalar payload, if one was set,
/// and a list payload. Nothing keeps a key from holding both.
pub struct ObjModel {
    pub item: Option<Seq<u8>>,
    pub items: Seq<Seq<u8>>,
}

/// The object that a fresh key starts from: no scalar, an empty list.
pub open spec fn empty_obj() -> ObjModel {
    ObjModel { item: None, items: Seq::empty() }
}

/// The object under `key`, or the empty one where there is none.
pub open spec fn obj_of(m: Map<Seq<char>, ObjModel>, key: Seq<char>) -> ObjModel {
    if m.contains_key(key) {
        m[key]
    } else {
        empty_obj()
    }
}

/// A list length as an integer reply: itself, or `i64::MAX` beyond that.
pub open spec fn reply_len(n: nat) -> int {
    if n <= i64::MAX {
        n as int
    } else {
        i64::MAX as int
    }
}

/// `SET key value`: a fresh object holding the value as its scalar takes
/// the key's place, any list it had included.
pub open spec fn set_op(m: Map<Seq<char>, ObjModel>, key: Seq<char>, args: Seq<Seq<u8>>) -> (
    Map<Seq<char>, ObjModel>,
    Value,
) {
    if args.len() == 0 {
        (m, Value::Null)
    } else {
        (m.insert(key, ObjModel { item: Some(args[0]), items: Seq::empty() }), Value::Simple(ok_text()))
    }
}

/// `GET key`: the key's scalar, or `Null` where the key is absent or has none.
pub open spec fn get_op(m: Map<Seq<char>, ObjModel>, key: Seq<char>) -> Value {
    if m.contains_key(key) {
        match m[key].item {
            Some(v) => Value::Bulk(v),
            None => Value::Null,
        }
    } else {
        Value::Null
    }
}

/// `DEL key`: the key is gone, whether or not it was there.
pub open spec fn del_op(m: Map<Seq<char>, ObjModel>, key: Seq<char>) -> (Map<Seq<char>, ObjModel>, Value) {
    (m.remove(key), Value::Simple(ok_text()))
}

/// `LPUSH key value`: the value goes to the tail of the key's list, which
/// is created where absent; the reply is the list's new length.
pub open spec fn lpush_op(m: Map<Seq<char>, ObjModel>, key: Seq<char>, args: Seq<Seq<u8>>) -> (
    Map<Seq<char>, ObjModel>,
    Value,
) {
    if args.len() == 0 {
        (m, Value::Null)
    } else {
        let o = obj_of(m, key);
        let n = ObjModel { item: o.item, items: o.items.push(args[0]) };
        (m.insert(key, n), Value::Integer(reply_len(n.items.len())))
    }
}

/// `RPOP key`: the head of the key's list leaves it and is the reply;
/// `Null` where the key is absent or its list empty.
pub open spec fn rpop_op(m: Map<Seq<char>, ObjModel>, key: Seq<char>) -> (Map<Seq<char>, ObjModel>, Value) {
    if m.contains_key(key) && m[key].items.len() > 0 {
        (
            m.insert(key, ObjModel { item: m[key].item, items: m[key].items.drop_first() }),
            Value::Bulk(m[key].items[0]),
        )
    } else {
        (m, Value::Null)
    }
}

/// One request executed against the store: the new store and the reply.
/// A name outside the table changes nothing and replies `Null`.
pub open spec fn apply(m: Map<Seq<char>, ObjModel>, req: Request) -> (Map<Seq<char>, ObjModel>, Value) {
    if req.name == ping_name() {
        (m, Value::Simple(pong_text()))
    } else if req.name == set_name() {
        set_op(m, req.key, req.args)
    } else if req.name == get_name() {
        (m, get_op(m, req.key))
    } else if req.name == lpush_name() {
        lpush_op(m, req.key, req.args)
    } else if req.name == rpop_name() {
        rpop_op(m, req.key)
    } else if req.name == del_name() {
        del_op(m, req.key)
    } else {
        (m, Value::Null)
    }
}

/// A stored object.
#[derive(Debug, Clone)]
pub struct Obj {
    pub item: Option<Vec<u8>>,
    pub items: VecDeque<Vec<u8>>,
}

impl View for Obj {
    type V = ObjModel;

    open spec fn view(&self) -> ObjModel {
        ObjModel {
            item: match self.item {
                Some(v) => Some(v@),
                None => None,
            },
            items: Seq::new(self.items@.len(), |i: int| self.items@[i]@),
        }
    }
}

impl Obj {
    /// An object with no scalar and an empty list.
    pub fn new() -> (r: Self)
        ensures
            r@ == empty_obj(),
    {
        let r = Obj { item: None, items: VecDeque::new() };
        assert(r@.items =~= Seq::<Seq<u8>>::empty());
        r
    }
}

/// A key with its object.
struct Entry {
    key: String,
    obj: Obj,
}

/// The entries hold each key once, and they are exactly the mapping `model`.
spec fn consistent(entries: Seq<Entry>, model: Map<Seq<char>, ObjModel>) -> bool {
    &&& forall|i: int, j: int|
        0 <= i < entries.len() && 0 <= j < entries.len() && i != j ==> #[trigger] entries[i].key@
            != #[trigger] entries[j].key@
    &&& forall|i: int|
        0 <= i < entries.len() ==> model.contains_key(#[trigger] entries[i].key@) && model[entries[i].key@]
            == entries[i].obj@
    &&& forall|k: Seq<char>|
        #[trigger] model.contains_key(k) ==> exists|i: int| 0 <= i < entries.len() && #[trigger] entries[i].key@ == k
}

proof fn lemma_replace(entries: Seq<Entry>, model: Map<Seq<char>, ObjModel>, i: int, e: Entry)
    requires
        consistent(entries, model),
        0 <= i < entries.len(),
        entries[i].key@ == e.key@,
    ensures
        consistent(entries.update(i, e), model.insert(e.key@, e.obj@)),
{
    let es = entries.update(i, e);
    let m = model.insert(e.key@, e.obj@);
    assert forall|k: Seq<char>| #[trigger] m.contains_key(k) implies exists|j: int|
        0 <= j < es.len() && #[trigger] es[j].key@ == k by {
        if k == e.key@ {
            assert(es[i].key@ == k);
        } else {
            let j = choose|j: int| 0 <= j < entries.len() && #[trigger] entries[j].key@ == k;
            assert(es[j].key@ == k);
        }
    };
    assert forall|j: int| 0 <= j < es.len() implies m.contains_key(#[trigger] es[j].key@) && m[es[j].key@]
        == es[j].obj@ by {
        if j != i {
            assert(entries[j].key@ != entries[i].key@);
        }
    };
}

proof fn lemma_append(entries: Seq<Entry>, model: Map<Seq<char>, ObjModel>, e: Entry)
    requires
        consistent(entries, model),
        !model.contains_key(e.key@),
    ensures
        consistent(entries.push(e), model.insert(e.key@, e.obj@)),
{
    let es = entries.push(e);
    let m = model.insert(e.key@, e.obj@);
    let n = entries.len() as int;
    assert forall|k: Seq<char>| #[trigger] m.contains_key(k) implies exists|j: int|
        0 <= j < es.len() && #[trigger] es[j].key@ == k by {
        if k == e.key@ {
            assert(es[n].key@ == k);
        } else {
            let j = choose|j: int| 0 <= j < entries.len() && #[trigger] entries[j].key@ == k;
            assert(es[j].key@ == k);
        }
    };
    assert forall|i: int, j: int|
        0 <= i < es.len() && 0 <= j < es.len() && i != j implies #[trigger] es[i].key@
        != #[trigger] es[j].key@ by {
        if i < n {
            assert(model.contains_key(entries[i].key@));
        }
        if j < n {
            assert(model.contains_key(entries[j].key@));
        }
    };
    assert forall|j: int| 0 <= j < es.len() implies m.contains_key(#[trigger] es[j].key@) && m[es[j].key@]
        == es[j].obj@ by {
        if j < n {
            assert(model.contains_key(entries[j].key@));
        }
    };
}

proof fn lemma_remove(entries: Seq<Entry>, model: Map<Seq<char>, ObjModel>, i: int)
    requires
        consistent(entries, model),
        0 <= i < entries.len(),
    ensures
        consistent(entries.remove(i), model.remove(entries[i].key@)),
{
    let es = entries.remove(i);
    let key = entries[i].key@;
    let m = model.remove(key);
    assert forall|k: Seq<char>| #[trigger] m.contains_key(k) implies exists|j: int|
        0 <= j < es.len() && #[trigger] es[j].key@ == k by {
        let j = choose|j: int| 0 <= j < entries.len() && #[trigger] entries[j].key@ == k;
        if j < i {
            assert(es[j].key@ == k);
        } else {
            assert(j != i);
            assert(es[j - 1].key@ == k);
        }
    };
    assert forall|a: int, b: int|
        0 <= a < es.len() && 0 <= b < es.len() && a != b implies #[trigger] es[a].key@
        != #[trigger] es[b].key@ by {
        let a0 = if a < i { a } else { a + 1 };
        let b0 = if b < i { b } else { b + 1 };
        assert(es[a] == entries[a0]);
        assert(es[b] == entries[b0]);
    };
    assert forall|j: int| 0 <= j < es.len() implies m.contains_key(#[trigger] es[j].key@) && m[es[j].key@]
        == es[j].obj@ by {
        let j0 = if j < i { j } else { j + 1 };
        assert(es[j] == entries[j0]);
        assert(j0 != i);
        assert(entries[j0].key@ != key);
    };
}

/// The key-value store: a mapping from string keys to objects.
pub struct Db {
    id: u8,
    entries: Vec<Entry>,
    model: Ghost<Map<Seq<char>, ObjModel>>,
}

impl View for Db {
    type V = Map<Seq<char>, ObjModel>;

    closed spec fn view(&self) -> Map<Seq<char>, ObjModel> {
        self.model@
    }
}

impl Db {
    /// Well-formedness: each key is stored once, and the entries are
    /// exactly the mapping that the store stands for.
    pub closed spec fn wf(&self) -> bool {
        consistent(self.entries@, self.model@)
    }

    /// An empty store.
    pub fn new() -> (r: Self)
        ensures
            r.wf(),
            r@ == Map::<Seq<char>, ObjModel>::empty(),
            r.id() == 0,
    {
        Db { id: 0, entries: Vec::new(), model: Ghost(Map::empty()) }
    }

    /// The number of this database.
    pub closed spec fn spec_id(&self) -> u8 {
        self.id
    }

    /// The number of this database.
    #[verifier::when_used_as_spec(spec_id)]
    pub fn id(&self) -> (r: u8)
        ensures
            r == self.spec_id(),
    {
        self.id
    }

    /// Where `key` stands among the entries, if it is stored.
    fn position(&self, key: &String) -> (r: Option<usize>)
        requires
            self.wf(),
        ensures
            match r {
                Some(i) => i < self.entries@.len() && self.entries@[i as int].key@ == key@
                    && self@.contains_key(key@),
                None => !self@.contains_key(key@),
            },
    {
        let mut i: usize = 0;
        while i < self.entries.len()
            invariant
                self.wf(),
                i <= self.entries@.len(),
                forall|j: int| 0 <= j < i ==> self.entries@[j].key@ != key@,
            decreases self.entries@.len() - i,
        {
            if self.entries[i].key == *key {
                return Some(i);
            }
            i = i + 1;
        }
        None
    }
}


impl Db {
    /// `PING`: replies `PONG`, leaving the store alone.
    pub fn ping(&self) -> (r: Resp)
        ensures
            r@ == Value::Simple(pong_text()),
    {
        let r = vec![80u8, 79, 78, 71];
        assert(r@ =~= pong_text());
        Resp::Simple(r)
    }

    /// `SET`: see [`set_op`].
    pub fn set(&mut self, cmd: CommandInfo) -> (r: Resp)
        requires
            old(self).wf(),
        ensures
            final(self).wf(),
            (final(self)@, r@) == set_op(old(self)@, cmd@.key, cmd@.args),
            final(self).id() == old(self).id(),
    {
        let ghost args = cmd@.args;
        let CommandInfo { name: _, key, args: mut values } = cmd;
        if values.len() == 0 {
            return Resp::Null;
        }
        let value = values.remove(0);
        assert(value@ == args[0]);
        let mut obj = Obj::new();
        obj.item = Some(value);
        let entry = Entry { key, obj };
        let ghost e = entry;
        match self.position(&entry.key) {
            Some(i) => {
                proof {
                    lemma_replace(self.entries@, self.model@, i as int, e);
                }
                self.entries.set(i, entry);
            },
            None => {
                proof {
                    lemma_append(self.entries@, self.model@, e);
                }
                self.entries.push(entry);
            },
        }
        self.model = Ghost(self.model@.insert(e.key@, e.obj@));
        assert(e.obj@.items =~= Seq::<Seq<u8>>::empty());
        let r = vec![79u8, 75];
        assert(r@ =~= ok_text());
        Resp::Simple(r)
    }

    /// `GET`: see [`get_op`].
    pub fn get(&self, cmd: CommandInfo) -> (r: Resp)
        requires
            self.wf(),
        ensures
            r@ == get_op(self@, cmd@.key),
    {
        match self.position(&cmd.key) {
            Some(i) => match &self.entries[i].obj.item {
                Some(v) => Resp::Bulk(crate::commands::copy_bytes(v.as_slice())),
                None => Resp::Null,
            },
            None => Resp::Null,
        }
    }

    /// `DEL`: see [`del_op`].
    pub fn del(&mut self, cmd: CommandInfo) -> (r: Resp)
        requires
            old(self).wf(),
        ensures
            final(self).wf(),
            (final(self)@, r@) == del_op(old(self)@, cmd@.key),
            final(self).id() == old(self).id(),
    {
        match self.position(&cmd.key) {
            Some(i) => {
                proof {
                    lemma_remove(self.entries@, self.model@, i as int);
                }
                let _gone = self.entries.remove(i);
                self.model = Ghost(self.model@.remove(cmd@.key));
            },
            None => {
                assert(self.model@.remove(cmd@.key) =~= self.model@);
            },
        }
        let r = vec![79u8, 75];
        assert(r@ =~= ok_text());
        Resp::Simple(r)
    }

    /// `LPUSH`: see [`lpush_op`].
    pub fn push(&mut self, cmd: CommandInfo) -> (r: Resp)
        requires
            old(self).wf(),
        ensures
            final(self).wf(),
            (final(self)@, r@) == lpush_op(old(self)@, cmd@.key, cmd@.args),
            final(self).id() == old(self).id(),
    {
        let ghost args = cmd@.args;
        let ghost m0 = self@;
        let CommandInfo { name: _, key, args: mut values } = cmd;
        if values.len() == 0 {
            return Resp::Null;
        }
        let value = values.remove(0);
        assert(value@ == args[0]);
        let len: usize;
        match self.position(&key) {
            Some(i) => {
                let ghost before = self.entries@[i as int];
                self.entries[i].obj.items.push_back(value);
                len = self.entries[i].obj.items.len();
                let ghost after = self.entries@[i as int];
                assert(after.obj@.items =~= before.obj@.items.push(args[0]));
                proof {
                    lemma_replace(old(self).entries@, old(self).model@, i as int, after);
                    assert(self.entries@ == old(self).entries@.update(i as int, after));
                }
                self.model = Ghost(self.model@.insert(key@, after.obj@));
                assert(obj_of(m0, key@) == before.obj@);
                assert(len == after.obj@.items.len());
                assert(after.obj.item == before.obj.item);
                assert(after.obj@ == ObjModel { item: before.obj@.item, items: before.obj@.items.push(args[0]) });
            },
            None => {
                let mut obj = Obj::new();
                obj.items.push_back(value);
                len = obj.items.len();
                let entry = Entry { key, obj };
                let ghost e = entry;
                assert(e.obj@.items =~= empty_obj().items.push(args[0]));
                proof {
                    lemma_append(self.entries@, self.model@, e);
                }
                self.entries.push(entry);
                self.model = Ghost(self.model@.insert(e.key@, e.obj@));
                assert(obj_of(m0, key@) == empty_obj());
                assert(len == e.obj@.items.len());
                assert(e.obj@ == ObjModel { item: empty_obj().item, items: empty_obj().items.push(args[0]) });
            },
        }
        let wide: u64 = len as u64;
        let n: i64 = if wide <= i64::MAX as u64 {
            wide as i64
        } else {
            i64::MAX
        };
        Resp::Integer(n)
    }

    /// `RPOP`: see [`rpop_op`].
    pub fn pop(&mut self, cmd: CommandInfo) -> (r: Resp)
        requires
            old(self).wf(),
        ensures
            final(self).wf(),
            (final(self)@, r@) == rpop_op(old(self)@, cmd@.key),
            final(self).id() == old(self).id(),
    {
        match self.position(&cmd.key) {
            Some(i) => {
                if self.entries[i].obj.items.len() == 0 {
                    return Resp::Null;
                }
                let ghost before = self.entries@[i as int];
                let v = self.entries[i].obj.items.pop_front();
                let ghost after = self.entries@[i as int];
                assert(after.obj@.items =~= before.obj@.items.drop_first());
                proof {
                    lemma_replace(old(self).entries@, old(self).model@, i as int, after);
                }
                self.model = Ghost(self.model@.insert(cmd@.key, after.obj@));
                match v {
                    Some(v) => Resp::Bulk(v),
                    None => Resp::Null,
                }
            },
            None => Resp::Null,
        }
    }

    /// Executes one request: see [`apply`].
    pub fn execute(&mut self, cmd: CommandInfo) -> (r: Resp)
        requires
            old(self).wf(),
        ensures
            final(self).wf(),
            (final(self)@, r@) == apply(old(self)@, cmd@),
            final(self).id() == old(self).id(),
    {
        let k = cmd.name.as_slice();
        let ping = vec![112u8, 105, 110, 103];
        assert(ping@ =~= ping_name());
        if bytes_eq(k, ping.as_slice()) {
            return self.ping();
        }
        let set = vec![115u8, 101, 116];
        assert(set@ =~= set_name());
        if bytes_eq(k, set.as_slice()) {
            return self.set(cmd);
        }
        let get = vec![103u8, 101, 116];
        assert(get@ =~= get_name());
        if bytes_eq(k, get.as_slice()) {
            return self.get(cmd);
        }
        let lpush = vec![108u8, 112, 117, 115, 104];
        assert(lpush@ =~= lpush_name());
        if bytes_eq(k, lpush.as_slice()) {
            return self.push(cmd);
        }
        let rpop = vec![114u8, 112, 111, 112];
        assert(rpop@ =~= rpop_name());
        if bytes_eq(k, rpop.as_slice()) {
            return self.pop(cmd);
        }
        let del = vec![100u8, 101, 108];
        assert(del@ =~= del_name());
        if bytes_eq(k, del.as_slice()) {
            return self.del(cmd);
        }
        Resp::Null
    }
}


/// A request with this name, key and arguments.
pub open spec fn request(name: Seq<u8>, key: Seq<char>, args: Seq<Seq<u8>>) -> Request {
    Request { name, key, args }
}

/// `SET key value`
pub open spec fn set_request(key: Seq<char>, value: Seq<u8>) -> Request {
    request(set_name(), key, seq![value])
}

/// `GET key`
pub open spec fn get_request(key: Seq<char>) -> Request {
    request(get_name(), key, Seq::empty())
}

/// `DEL key`
pub open spec fn del_request(key: Seq<char>) -> Request {
    request(del_name(), key, Seq::empty())
}

/// `LPUSH key value`
pub open spec fn lpush_request(key: Seq<char>, value: Seq<u8>) -> Request {
    request(lpush_name(), key, seq![value])
}

/// `RPOP key`
pub open spec fn rpop_request(key: Seq<char>) -> Request {
    request(rpop_name(), key, Seq::empty())
}

proof fn lemma_names_differ()
    ensures
        set_name() != ping_name(),
        get_name() != ping_name(),
        get_name() != set_name(),
        lpush_name() != ping_name(),
        lpush_name() != set_name(),
        lpush_name() != get_name(),
        rpop_name() != ping_name(),
        rpop_name() != set_name(),
        rpop_name() != get_name(),
        rpop_name() != lpush_name(),
        del_name() != ping_name(),
        del_name() != set_name(),
        del_name() != get_name(),
        del_name() != lpush_name(),
        del_name() != rpop_name(),
{
    assert(set_name().len() != ping_name().len());
    assert(get_name().len() != ping_name().len());
    assert(get_name()[0] != set_name()[0]);
    assert(lpush_name().len() != ping_name().len());
    assert(lpush_name().len() != set_name().len());
    assert(lpush_name().len() != get_name().len());
    assert(rpop_name()[0] != ping_name()[0]);
    assert(rpop_name().len() != set_name().len());
    assert(rpop_name().len() != get_name().len());
    assert(rpop_name().len() != lpush_name().len());
    assert(del_name().len() != ping_name().len());
    assert(del_name()[0] != set_name()[0]);
    assert(del_name()[0] != get_name()[0]);
    assert(del_name().len() != lpush_name().len());
    assert(del_name().len() != rpop_name().len());
}

/// After `SET key value`, `GET key` replies with that value.
pub proof fn lemma_set_then_get(m: Map<Seq<char>, ObjModel>, key: Seq<char>, value: Seq<u8>)
    ensures
        apply(m, set_request(key, value)).1 == Value::Simple(ok_text()),
        apply(apply(m, set_request(key, value)).0, get_request(key)).1 == Value::Bulk(value),
{
    lemma_names_differ();
}

/// `GET` on a key that was never written replies `Null`.
pub proof fn lemma_get_unwritten(m: Map<Seq<char>, ObjModel>, key: Seq<char>)
    requires
        !m.contains_key(key),
    ensures
        apply(m, get_request(key)) == (m, Value::Null),
{
    lemma_names_differ();
}

/// `DEL key` always replies `OK`, and a `GET key` after it replies `Null`,
/// whether or not the key was there.
pub proof fn lemma_del_then_get(m: Map<Seq<char>, ObjModel>, key: Seq<char>)
    ensures
        apply(m, del_request(key)).1 == Value::Simple(ok_text()),
        apply(apply(m, del_request(key)).0, get_request(key)).1 == Value::Null,
{
    lemma_names_differ();
}

/// On a key whose list is empty, `LPUSH key v1` then `LPUSH key v2` reply
/// 1 then 2; `RPOP key` then gives `v1` back, the next one `v2`, and one
/// more finds the list empty and replies `Null`.
pub proof fn lemma_push_push_pop(m: Map<Seq<char>, ObjModel>, key: Seq<char>, v1: Seq<u8>, v2: Seq<u8>)
    requires
        obj_of(m, key).items.len() == 0,
    ensures
        ({
            let (m1, r1) = apply(m, lpush_request(key, v1));
            let (m2, r2) = apply(m1, lpush_request(key, v2));
            let (m3, r3) = apply(m2, rpop_request(key));
            let (m4, r4) = apply(m3, rpop_request(key));
            let (m5, r5) = apply(m4, rpop_request(key));
            &&& r1 == Value::Integer(1)
            &&& r2 == Value::Integer(2)
            &&& r3 == Value::Bulk(v1)
            &&& r4 == Value::Bulk(v2)
            &&& r5 == Value::Null
        }),
{
    lemma_names_differ();
    let (m1, r1) = apply(m, lpush_request(key, v1));
    assert(obj_of(m1, key).items =~= seq![v1]);
    let (m2, r2) = apply(m1, lpush_request(key, v2));
    assert(obj_of(m2, key).items =~= seq![v1, v2]);
    let (m3, r3) = apply(m2, rpop_request(key));
    assert(obj_of(m3, key).items =~= seq![v2]);
    let (m4, r4) = apply(m3, rpop_request(key));
    assert(obj_of(m4, key).items =~= Seq::<Seq<u8>>::empty());
}

/// The store after a run of `LPUSH key v` requests, one for each value of
/// `vals`, in order.
pub open spec fn push_all(m: Map<Seq<char>, ObjModel>, key: Seq<char>, vals: Seq<Seq<u8>>) -> Map<
    Seq<char>,
    ObjModel,
>
    decreases vals.len(),
{
    if vals.len() == 0 {
        m
    } else {
        apply(push_all(m, key, vals.drop_last()), lpush_request(key, vals.last())).0
    }
}

/// The store executes requests one at a time, so however the `LPUSH`
/// requests of concurrent clients interleave, they form one run: the key's
/// list ends with every pushed value, in the order of execution, and grows by
/// exactly their number.
pub proof fn lemma_pushes_accumulate(m: Map<Seq<char>, ObjModel>, key: Seq<char>, vals: Seq<Seq<u8>>)
    ensures
        obj_of(push_all(m, key, vals), key).items == obj_of(m, key).items + vals,
        obj_of(push_all(m, key, vals), key).items.len() == obj_of(m, key).items.len() + vals.len(),
    decreases vals.len(),
{
    lemma_names_differ();
    if vals.len() == 0 {
        assert(obj_of(m, key).items + vals =~= obj_of(m, key).items);
    } else {
        lemma_pushes_accumulate(m, key, vals.drop_last());
        assert(obj_of(m, key).items + vals =~= (obj_of(m, key).items + vals.drop_last()).push(vals.last()));
    }
}

} // verus!
