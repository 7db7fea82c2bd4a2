//! The command service: one function per operation variant, and a
//! dispatcher from a decoded request to the storage calls and the
//! response that realize it.
//!
//! Each variant's meaning is stated as a spec-level semantics over the
//! store model; the executable functions are proved against it. Errors of
//! the storage backend become a 500 response with the error's text;
//! everything else follows the success shapes of the protocol.

use crate::error::not_found_msg;
use crate::error::KvError;
use crate::pb::pairs_view;
use crate::pb::strs_view;
use crate::pb::values_view;
use crate::pb::CommandRequest;
use crate::pb::CommandResponse;
use crate::pb::Hdel;
use crate::pb::Hexist;
use crate::pb::Hget;
use crate::pb::Hgetall;
use crate::pb::Hmdel;
use crate::pb::Hmexist;
use crate::pb::Hmget;
use crate::pb::Hmset;
use crate::pb::Hset;
use crate::pb::Kvpair;
use crate::pb::KvpairV;
use crate::pb::ReqV;
use crate::pb::RespV;
use crate::pb::Value;
use crate::pb::ValueV;
use crate::storage::opt_view;
use crate::storage::pairs_enumerate;
use crate::storage::st_del;
use crate::storage::st_get;
use crate::storage::st_set;
use crate::storage::st_table;
use crate::storage::Storage;
use crate::storage::StoreV;
use vstd::prelude::*;

verus! {

/// Success: everything went well.
pub const STATUS_OK: u32 = 200;

/// The request decoded but named no supported operation.
pub const STATUS_BAD_REQUEST: u32 = 400;

/// A single-key read or delete named an absent key.
pub const STATUS_NOT_FOUND: u32 = 404;

/// A storage backend failure, or anything else.
pub const STATUS_INTERNAL: u32 = 500;

/// A success response carrying values.
pub open spec fn ok_values_resp(vs: Seq<ValueV>) -> RespV {
    RespV { status: STATUS_OK, message: Seq::empty(), values: vs, pairs: Seq::empty() }
}

/// A success response carrying pairs.
pub open spec fn ok_pairs_resp(ps: Seq<KvpairV>) -> RespV {
    RespV { status: STATUS_OK, message: Seq::empty(), values: Seq::empty(), pairs: ps }
}

/// An error response: a status, a message, and nothing else.
pub open spec fn error_resp(status: u32, msg: Seq<char>) -> RespV {
    RespV { status, message: msg, values: Seq::empty(), pairs: Seq::empty() }
}

/// The 404 response of a single-key read or delete.
pub open spec fn not_found_resp(t: Seq<char>, k: Seq<char>) -> RespV {
    error_resp(STATUS_NOT_FOUND, not_found_msg(t, k))
}

/// The status a `KvError` is reported under.
pub open spec fn error_status(e: &KvError) -> u32 {
    match e {
        KvError::NotFound(_, _) => STATUS_NOT_FOUND,
        KvError::InvalidCommand(_) => STATUS_BAD_REQUEST,
        _ => STATUS_INTERNAL,
    }
}

/// A response that reports a backend failure and surfaces no partial
/// result.
pub open spec fn backend_failure(resp: RespV) -> bool {
    resp.status == STATUS_INTERNAL && resp.values.len() == 0 && resp.pairs.len() == 0
}

/// The stored value, or the absent value.
pub open spec fn prior_or_empty(o: Option<ValueV>) -> ValueV {
    match o {
        Some(v) => v,
        None => ValueV::Empty,
    }
}

/// What `Hget` answers on store `s`.
pub open spec fn spec_hget(s: StoreV, t: Seq<char>, k: Seq<char>) -> RespV {
    match st_get(s, t, k) {
        Some(v) => ok_values_resp(seq![v]),
        None => not_found_resp(t, k),
    }
}

/// What `Hexist` answers on store `s`.
pub open spec fn spec_hexist(s: StoreV, t: Seq<char>, k: Seq<char>) -> RespV {
    ok_values_resp(seq![ValueV::Bool(st_get(s, t, k) is Some)])
}

/// What `Hset` answers on store `s`, and the store it leaves.
pub open spec fn spec_hset(s: StoreV, t: Seq<char>, k: Seq<char>, v: ValueV) -> (RespV, StoreV) {
    (ok_values_resp(seq![prior_or_empty(st_get(s, t, k))]), st_set(s, t, k, v))
}

/// What `Hdel` answers on store `s`, and the store it leaves.
pub open spec fn spec_hdel(s: StoreV, t: Seq<char>, k: Seq<char>) -> (RespV, StoreV) {
    let resp = match st_get(s, t, k) {
        Some(v) => ok_values_resp(seq![v]),
        None => not_found_resp(t, k),
    };
    (resp, st_del(s, t, k))
}

/// The pair each of `keys` maps to on store `s`: the stored value, or the
/// absent value for a key that is not present. `Hmget` and `Hmexist`
/// both answer with exactly these pairs.
pub open spec fn lookup_pairs(s: StoreV, t: Seq<char>, keys: Seq<Seq<char>>) -> Seq<KvpairV> {
    keys.map_values(|k: Seq<char>| KvpairV { key: k, value: prior_or_empty(st_get(s, t, k)) })
}

/// What `Hmset` answers and leaves: the pairs are set left to right, and
/// each reported pair carries the value the key had just before its own
/// set, so a key repeated in the input sees the earlier write.
pub open spec fn hmset_loop(s: StoreV, t: Seq<char>, ps: Seq<KvpairV>) -> (Seq<KvpairV>, StoreV)
    decreases ps.len(),
{
    if ps.len() == 0 {
        (Seq::empty(), s)
    } else {
        let p = ps[0];
        let reported = KvpairV { key: p.key, value: prior_or_empty(st_get(s, t, p.key)) };
        let rest = hmset_loop(st_set(s, t, p.key, p.value), t, ps.drop_first());
        (seq![reported] + rest.0, rest.1)
    }
}

/// What `Hmdel` answers and leaves: the keys are deleted left to right,
/// and each reported pair carries the value that was removed, or the
/// absent value.
pub open spec fn hmdel_loop(s: StoreV, t: Seq<char>, keys: Seq<Seq<char>>) -> (
    Seq<KvpairV>,
    StoreV,
)
    decreases keys.len(),
{
    if keys.len() == 0 {
        (Seq::empty(), s)
    } else {
        let k = keys[0];
        let reported = KvpairV { key: k, value: prior_or_empty(st_get(s, t, k)) };
        let rest = hmdel_loop(st_del(s, t, k), t, keys.drop_first());
        (seq![reported] + rest.0, rest.1)
    }
}

/// What a successful `Hgetall` answer looks like: status 200, no message,
/// no values, and pairs that list the table exactly, in some order.
pub open spec fn hgetall_ok(resp: RespV, s: StoreV, t: Seq<char>) -> bool {
    &&& resp.status == 200
    &&& resp.message.len() == 0
    &&& resp.values.len() == 0
    &&& pairs_enumerate(resp.pairs, st_table(s, t))
}

/// The contract of dispatching one request: relates the request, the
/// store before, the response, and the store after. A `backend_failure`
/// disjunct covers a storage engine that fails; the in-memory engine
/// never does.
pub open spec fn dispatch_post(req: ReqV, s0: StoreV, resp: RespV, s1: StoreV) -> bool {
    match req {
        ReqV::Hget { table, key } => s1 == s0 && (resp == spec_hget(s0, table, key)
            || backend_failure(resp)),
        ReqV::Hgetall { table } => s1 == s0 && (hgetall_ok(resp, s0, table) || backend_failure(
            resp,
        )),
        ReqV::Hexist { table, key } => s1 == s0 && (resp == spec_hexist(s0, table, key)
            || backend_failure(resp)),
        ReqV::Hmget { table, keys } => s1 == s0 && (resp == ok_pairs_resp(
            lookup_pairs(s0, table, keys),
        ) || backend_failure(resp)),
        ReqV::Hmexist { table, keys } => s1 == s0 && (resp == ok_pairs_resp(
            lookup_pairs(s0, table, keys),
        ) || backend_failure(resp)),
        ReqV::Hset { table, pair } => (resp == spec_hset(s0, table, pair.key, pair.value).0 && s1
            == spec_hset(s0, table, pair.key, pair.value).1) || (backend_failure(resp) && s1
            == s0),
        ReqV::Hdel { table, key } => (resp == spec_hdel(s0, table, key).0 && s1 == spec_hdel(
            s0,
            table,
            key,
        ).1) || (backend_failure(resp) && s1 == s0),
        ReqV::Hmset { table, pairs } => (resp == ok_pairs_resp(hmset_loop(s0, table, pairs).0)
            && s1 == hmset_loop(s0, table, pairs).1) || backend_failure(resp),
        ReqV::Hmdel { table, keys } => (resp == ok_pairs_resp(hmdel_loop(s0, table, keys).0) && s1
            == hmdel_loop(s0, table, keys).1) || backend_failure(resp),
    }
}

/// The exact success semantics of one request: what dispatching it must
/// answer and leave when no storage call fails. An engine that claims
/// `Storage::infallible` is held to exactly this.
pub open spec fn dispatch_success(req: ReqV, s0: StoreV, resp: RespV, s1: StoreV) -> bool {
    match req {
        ReqV::Hget { table, key } => s1 == s0 && resp == spec_hget(s0, table, key),
        ReqV::Hgetall { table } => s1 == s0 && hgetall_ok(resp, s0, table),
        ReqV::Hexist { table, key } => s1 == s0 && resp == spec_hexist(s0, table, key),
        ReqV::Hmget { table, keys } => s1 == s0 && resp == ok_pairs_resp(
            lookup_pairs(s0, table, keys),
        ),
        ReqV::Hmexist { table, keys } => s1 == s0 && resp == ok_pairs_resp(
            lookup_pairs(s0, table, keys),
        ),
        ReqV::Hset { table, pair } => resp == spec_hset(s0, table, pair.key, pair.value).0 && s1
            == spec_hset(s0, table, pair.key, pair.value).1,
        ReqV::Hdel { table, key } => resp == spec_hdel(s0, table, key).0 && s1 == spec_hdel(
            s0,
            table,
            key,
        ).1,
        ReqV::Hmset { table, pairs } => resp == ok_pairs_resp(hmset_loop(s0, table, pairs).0)
            && s1 == hmset_loop(s0, table, pairs).1,
        ReqV::Hmdel { table, keys } => resp == ok_pairs_resp(hmdel_loop(s0, table, keys).0) && s1
            == hmdel_loop(s0, table, keys).1,
    }
}

impl CommandResponse {
    /// A 200 response carrying `values`.
    pub fn ok_with_values(values: Vec<Value>) -> (r: CommandResponse)
        ensures
            r@ == ok_values_resp(values_view(values@)),
    {
        let r = CommandResponse {
            status: STATUS_OK,
            message: String::new(),
            values,
            pairs: Vec::new(),
        };
        proof {
            assert(r@ =~~= ok_values_resp(values_view(r.values@)));
        }
        r
    }

    /// A 200 response carrying `pairs`.
    pub fn ok_with_pairs(pairs: Vec<Kvpair>) -> (r: CommandResponse)
        ensures
            r@ == ok_pairs_resp(pairs_view(pairs@)),
    {
        let r = CommandResponse {
            status: STATUS_OK,
            message: String::new(),
            values: Vec::new(),
            pairs,
        };
        proof {
            assert(r@ =~~= ok_pairs_resp(pairs_view(r.pairs@)));
        }
        r
    }

    /// The response an error is reported as: its status and its text.
    pub fn from_error(e: &KvError) -> (r: CommandResponse)
        ensures
            r@ == error_resp(error_status(e), e.spec_message()),
    {
        let status: u32 = match e {
            KvError::NotFound(_, _) => STATUS_NOT_FOUND,
            KvError::InvalidCommand(_) => STATUS_BAD_REQUEST,
            _ => STATUS_INTERNAL,
        };
        let r = CommandResponse {
            status,
            message: e.message_text(),
            values: Vec::new(),
            pairs: Vec::new(),
        };
        proof {
            assert(r@ =~~= error_resp(error_status(e), e.spec_message()));
        }
        r
    }
}

/// A one-element vector.
fn one_value(v: Value) -> (r: Vec<Value>)
    ensures
        values_view(r@) == seq![v@],
{
    let mut out: Vec<Value> = Vec::new();
    out.push(v);
    proof {
        assert(values_view(out@) =~= seq![v@]);
    }
    out
}

/// The stored value, or the absent value.
fn opt_or_empty(v: Option<Value>) -> (r: Value)
    ensures
        r@ == prior_or_empty(opt_view(v)),
{
    match v {
        Some(x) => x,
        None => Value::Empty,
    }
}

impl Hget {
    /// Reads one key; an absent key is a 404.
    pub fn execute<S: Storage>(self, store: &mut S) -> (r: CommandResponse)
        requires
            old(store).inv(),
        ensures
            final(store).inv(),
            dispatch_post(
                ReqV::Hget { table: self.table@, key: self.key@ },
                old(store).store_view(),
                r@,
                final(store).store_view(),
            ),
            S::infallible() ==> dispatch_success(
                ReqV::Hget { table: self.table@, key: self.key@ },
                old(store).store_view(),
                r@,
                final(store).store_view(),
            ),
    {
        match store.get(self.table.as_str(), self.key.as_str()) {
            Ok(Some(v)) => CommandResponse::ok_with_values(one_value(v)),
            Ok(None) => CommandResponse::from_error(
                &KvError::NotFound(self.table, self.key),
            ),
            Err(e) => CommandResponse::from_error(&e),
        }
    }
}

impl Hexist {
    /// Tells whether one key is present; never a 404.
    pub fn execute<S: Storage>(self, store: &mut S) -> (r: CommandResponse)
        requires
            old(store).inv(),
        ensures
            final(store).inv(),
            dispatch_post(
                ReqV::Hexist { table: self.table@, key: self.key@ },
                old(store).store_view(),
                r@,
                final(store).store_view(),
            ),
            S::infallible() ==> dispatch_success(
                ReqV::Hexist { table: self.table@, key: self.key@ },
                old(store).store_view(),
                r@,
                final(store).store_view(),
            ),
    {
        match store.get(self.table.as_str(), self.key.as_str()) {
            Ok(v) => {
                let b = v.is_some();
                CommandResponse::ok_with_values(one_value(Value::Bool(b)))
            },
            Err(e) => CommandResponse::from_error(&e),
        }
    }
}

impl Hset {
    /// Sets one pair and reports the prior value; a fresh key reports the
    /// absent value.
    pub fn execute<S: Storage>(self, store: &mut S) -> (r: CommandResponse)
        requires
            old(store).inv(),
        ensures
            final(store).inv(),
            dispatch_post(
                ReqV::Hset { table: self.table@, pair: self.pair@ },
                old(store).store_view(),
                r@,
                final(store).store_view(),
            ),
            S::infallible() ==> dispatch_success(
                ReqV::Hset { table: self.table@, pair: self.pair@ },
                old(store).store_view(),
                r@,
                final(store).store_view(),
            ),
    {
        let pair = self.pair;
        match store.set(self.table.as_str(), pair.key, pair.value) {
            Ok(prior) => {
                let v = opt_or_empty(prior);
                CommandResponse::ok_with_values(one_value(v))
            },
            Err(e) => CommandResponse::from_error(&e),
        }
    }
}

impl Hdel {
    /// Deletes one key and reports the removed value; an absent key is a
    /// 404.
    pub fn execute<S: Storage>(self, store: &mut S) -> (r: CommandResponse)
        requires
            old(store).inv(),
        ensures
            final(store).inv(),
            dispatch_post(
                ReqV::Hdel { table: self.table@, key: self.key@ },
                old(store).store_view(),
                r@,
                final(store).store_view(),
            ),
            S::infallible() ==> dispatch_success(
                ReqV::Hdel { table: self.table@, key: self.key@ },
                old(store).store_view(),
                r@,
                final(store).store_view(),
            ),
    {
        match store.del(self.table.as_str(), self.key.as_str()) {
            Ok(Some(v)) => CommandResponse::ok_with_values(one_value(v)),
            Ok(None) => CommandResponse::from_error(
                &KvError::NotFound(self.table, self.key),
            ),
            Err(e) => CommandResponse::from_error(&e),
        }
    }
}

impl Hgetall {
    /// Reads a whole table; a missing table reads as an empty one.
    pub fn execute<S: Storage>(self, store: &mut S) -> (r: CommandResponse)
        requires
            old(store).inv(),
        ensures
            final(store).inv(),
            dispatch_post(
                ReqV::Hgetall { table: self.table@ },
                old(store).store_view(),
                r@,
                final(store).store_view(),
            ),
            S::infallible() ==> dispatch_success(
                ReqV::Hgetall { table: self.table@ },
                old(store).store_view(),
                r@,
                final(store).store_view(),
            ),
    {
        match store.get_all(self.table.as_str()) {
            Ok(pairs) => CommandResponse::ok_with_pairs(pairs),
            Err(e) => CommandResponse::from_error(&e),
        }
    }
}

impl Hmget {
    /// Reads several keys; each absent key yields a pair with the absent
    /// value.
    pub fn execute<S: Storage>(self, store: &mut S) -> (r: CommandResponse)
        requires
            old(store).inv(),
        ensures
            final(store).inv(),
            dispatch_post(
                ReqV::Hmget { table: self.table@, keys: strs_view(self.keys@) },
                old(store).store_view(),
                r@,
                final(store).store_view(),
            ),
            S::infallible() ==> dispatch_success(
                ReqV::Hmget { table: self.table@, keys: strs_view(self.keys@) },
                old(store).store_view(),
                r@,
                final(store).store_view(),
            ),
    {
        match lookup_each(store, &self.table, &self.keys) {
            Ok(pairs) => CommandResponse::ok_with_pairs(pairs),
            Err(e) => CommandResponse::from_error(&e),
        }
    }
}

impl Hmexist {
    /// Tests several keys; answers with the same pairs as `Hmget`.
    pub fn execute<S: Storage>(self, store: &mut S) -> (r: CommandResponse)
        requires
            old(store).inv(),
        ensures
            final(store).inv(),
            dispatch_post(
                ReqV::Hmexist { table: self.table@, keys: strs_view(self.keys@) },
                old(store).store_view(),
                r@,
                final(store).store_view(),
            ),
            S::infallible() ==> dispatch_success(
                ReqV::Hmexist { table: self.table@, keys: strs_view(self.keys@) },
                old(store).store_view(),
                r@,
                final(store).store_view(),
            ),
    {
        match lookup_each(store, &self.table, &self.keys) {
            Ok(pairs) => CommandResponse::ok_with_pairs(pairs),
            Err(e) => CommandResponse::from_error(&e),
        }
    }
}

/// Reads each of `keys` and pairs it with what the store holds.
fn lookup_each<S: Storage>(store: &S, table: &String, keys: &Vec<String>) -> (r: Result<
    Vec<Kvpair>,
    KvError,
>)
    requires
        store.inv(),
    ensures
        r matches Ok(pairs) ==> pairs_view(pairs@) == lookup_pairs(
            store.store_view(),
            table@,
            strs_view(keys@),
        ),
        r matches Err(e) ==> crate::storage::backend_error(e),
        S::infallible() ==> r is Ok,
{
    let mut out: Vec<Kvpair> = Vec::new();
    let mut i: usize = 0;
    while i < keys.len()
        invariant
            store.inv(),
            i <= keys@.len(),
            out@.len() == i,
            forall|j: int|
                #![auto]
                0 <= j < i ==> out@[j]@ == (KvpairV {
                    key: keys@[j]@,
                    value: prior_or_empty(st_get(store.store_view(), table@, keys@[j]@)),
                }),
        decreases keys@.len() - i,
    {
        match store.get(table.as_str(), keys[i].as_str()) {
            Ok(v) => {
                let val = opt_or_empty(v);
                out.push(Kvpair::new(keys[i].as_str(), val));
            },
            Err(e) => {
                return Err(e);
            },
        }
        i = i + 1;
    }
    proof {
        assert(pairs_view(out@) =~= lookup_pairs(store.store_view(), table@, strs_view(keys@)));
    }
    Ok(out)
}

impl Hmset {
    /// Sets several pairs, left to right, and reports each key's prior
    /// value.
    pub fn execute<S: Storage>(self, store: &mut S) -> (r: CommandResponse)
        requires
            old(store).inv(),
        ensures
            final(store).inv(),
            dispatch_post(
                ReqV::Hmset { table: self.table@, pairs: pairs_view(self.pairs@) },
                old(store).store_view(),
                r@,
                final(store).store_view(),
            ),
            S::infallible() ==> dispatch_success(
                ReqV::Hmset { table: self.table@, pairs: pairs_view(self.pairs@) },
                old(store).store_view(),
                r@,
                final(store).store_view(),
            ),
    {
        let ghost s0 = store.store_view();
        let ghost t = self.table@;
        let ghost pv = pairs_view(self.pairs@);
        let mut out: Vec<Kvpair> = Vec::new();
        let mut i: usize = 0;
        proof {
            assert(pv.skip(0) =~= pv);
            assert(pairs_view(out@) + hmset_loop(s0, t, pv).0 =~= hmset_loop(s0, t, pv).0);
        }
        while i < self.pairs.len()
            invariant
                store.inv(),
                i <= self.pairs@.len(),
                pv == pairs_view(self.pairs@),
                t == self.table@,
                hmset_loop(s0, t, pv).0 == pairs_view(out@) + hmset_loop(
                    store.store_view(),
                    t,
                    pv.skip(i as int),
                ).0,
                hmset_loop(s0, t, pv).1 == hmset_loop(store.store_view(), t, pv.skip(i as int)).1,
            decreases self.pairs@.len() - i,
        {
            let ghost cur = store.store_view();
            let p = self.pairs[i].dup();
            proof {
                assert(pv.skip(i as int)[0] == pv[i as int]);
                assert(pv.skip(i as int).drop_first() =~= pv.skip(i as int + 1));
            }
            match store.set(self.table.as_str(), p.key, p.value) {
                Ok(prior) => {
                    let val = opt_or_empty(prior);
                    out.push(Kvpair::new(self.pairs[i].key.as_str(), val));
                    proof {
                        assert(pairs_view(out@) =~= pairs_view(out@.drop_last()).push(
                            out@.last()@,
                        ));
                        assert(pairs_view(out@.drop_last()).push(out@.last()@) + hmset_loop(
                            store.store_view(),
                            t,
                            pv.skip(i as int + 1),
                        ).0 =~= pairs_view(out@.drop_last()) + (seq![out@.last()@] + hmset_loop(
                            store.store_view(),
                            t,
                            pv.skip(i as int + 1),
                        ).0));
                    }
                },
                Err(e) => {
                    return CommandResponse::from_error(&e);
                },
            }
            i = i + 1;
        }
        proof {
            assert(pv.skip(pv.len() as int) =~= Seq::<KvpairV>::empty());
            assert(hmset_loop(s0, t, pv).0 =~= pairs_view(out@));
        }
        CommandResponse::ok_with_pairs(out)
    }
}

impl Hmdel {
    /// Deletes several keys, left to right, and reports each removed
    /// value.
    pub fn execute<S: Storage>(self, store: &mut S) -> (r: CommandResponse)
        requires
            old(store).inv(),
        ensures
            final(store).inv(),
            dispatch_post(
                ReqV::Hmdel { table: self.table@, keys: strs_view(self.keys@) },
                old(store).store_view(),
                r@,
                final(store).store_view(),
            ),
            S::infallible() ==> dispatch_success(
                ReqV::Hmdel { table: self.table@, keys: strs_view(self.keys@) },
                old(store).store_view(),
                r@,
                final(store).store_view(),
            ),
    {
        let ghost s0 = store.store_view();
        let ghost t = self.table@;
        let ghost kv = strs_view(self.keys@);
        let mut out: Vec<Kvpair> = Vec::new();
        let mut i: usize = 0;
        proof {
            assert(kv.skip(0) =~= kv);
            assert(pairs_view(out@) + hmdel_loop(s0, t, kv).0 =~= hmdel_loop(s0, t, kv).0);
        }
        while i < self.keys.len()
            invariant
                store.inv(),
                i <= self.keys@.len(),
                kv == strs_view(self.keys@),
                t == self.table@,
                hmdel_loop(s0, t, kv).0 == pairs_view(out@) + hmdel_loop(
                    store.store_view(),
                    t,
                    kv.skip(i as int),
                ).0,
                hmdel_loop(s0, t, kv).1 == hmdel_loop(store.store_view(), t, kv.skip(i as int)).1,
            decreases self.keys@.len() - i,
        {
            proof {
                assert(kv.skip(i as int)[0] == kv[i as int]);
                assert(kv.skip(i as int).drop_first() =~= kv.skip(i as int + 1));
            }
            match store.del(self.table.as_str(), self.keys[i].as_str()) {
                Ok(prior) => {
                    let val = opt_or_empty(prior);
                    out.push(Kvpair::new(self.keys[i].as_str(), val));
                    proof {
                        assert(pairs_view(out@) =~= pairs_view(out@.drop_last()).push(
                            out@.last()@,
                        ));
                        assert(pairs_view(out@.drop_last()).push(out@.last()@) + hmdel_loop(
                            store.store_view(),
                            t,
                            kv.skip(i as int + 1),
                        ).0 =~= pairs_view(out@.drop_last()) + (seq![out@.last()@] + hmdel_loop(
                            store.store_view(),
                            t,
                            kv.skip(i as int + 1),
                        ).0));
                    }
                },
                Err(e) => {
                    return CommandResponse::from_error(&e);
                },
            }
            i = i + 1;
        }
        proof {
            assert(kv.skip(kv.len() as int) =~= Seq::<Seq<char>>::empty());
            assert(hmdel_loop(s0, t, kv).0 =~= pairs_view(out@));
        }
        CommandResponse::ok_with_pairs(out)
    }
}

/// Routes one decoded request to the storage calls and the response that
/// realize it.
pub fn dispatch<S: Storage>(cmd: CommandRequest, store: &mut S) -> (r: CommandResponse)
    requires
        old(store).inv(),
    ensures
        final(store).inv(),
        dispatch_post(cmd@, old(store).store_view(), r@, final(store).store_view()),
        S::infallible() ==> dispatch_success(
            cmd@,
            old(store).store_view(),
            r@,
            final(store).store_view(),
        ),
{
    match cmd {
        CommandRequest::Hset(c) => c.execute(store),
        CommandRequest::Hget(c) => c.execute(store),
        CommandRequest::Hgetall(c) => c.execute(store),
        CommandRequest::Hmget(c) => c.execute(store),
        CommandRequest::Hmset(c) => c.execute(store),
        CommandRequest::Hdel(c) => c.execute(store),
        CommandRequest::Hmdel(c) => c.execute(store),
        CommandRequest::Hexist(c) => c.execute(store),
        CommandRequest::Hmexist(c) => c.execute(store),
    }
}

/// Dispatch-then-storage equivalence for the single-key variants, on an
/// empty store: a read or delete of an absent key is a 404 and an absence
/// report; after a set, the delete removes and reports the value, and a
/// further read is a 404 again.
pub proof fn lemma_single_key_round(t: Seq<char>, k: Seq<char>, v: ValueV)
    ensures
        spec_hget(Map::empty(), t, k).status == 404,
        spec_hdel(Map::empty(), t, k).0.status == 404,
        spec_hexist(Map::empty(), t, k) == ok_values_resp(seq![ValueV::Bool(false)]),
        spec_hset(Map::empty(), t, k, v).0 == ok_values_resp(seq![ValueV::Empty]),
        spec_hget(spec_hset(Map::empty(), t, k, v).1, t, k) == ok_values_resp(seq![v]),
        spec_hexist(spec_hset(Map::empty(), t, k, v).1, t, k) == ok_values_resp(
            seq![ValueV::Bool(true)],
        ),
        spec_hdel(spec_hset(Map::empty(), t, k, v).1, t, k).0 == ok_values_resp(seq![v]),
        spec_hget(spec_hdel(spec_hset(Map::empty(), t, k, v).1, t, k).1, t, k).status == 404,
{
    let s0 = Map::<Seq<char>, Map<Seq<char>, ValueV>>::empty();
    assert(!s0.contains_key(t));
    let s1 = spec_hset(s0, t, k, v).1;
    assert(st_get(s1, t, k) == Some(v));
    let s2 = spec_hdel(s1, t, k).1;
    assert(!st_table(s2, t).contains_key(k));
}

/// Aggregate-order invariance: what `Hmget` or `Hmexist` answers for keys
/// `K`, taken as a set, is exactly the set of pairs that binds each key
/// of `K` to what the store holds for it, however the keys were ordered.
pub proof fn lemma_aggregate_order_invariance(s: StoreV, t: Seq<char>, keys: Seq<Seq<char>>)
    ensures
        lookup_pairs(s, t, keys).to_set() == keys.to_set().map(
            |k: Seq<char>| KvpairV { key: k, value: prior_or_empty(st_get(s, t, k)) },
        ),
{
    keys.lemma_to_set_map_commutes(
        |k: Seq<char>| KvpairV { key: k, value: prior_or_empty(st_get(s, t, k)) },
    );
}

/// Lazy table creation: a read of any key of a table the store does not
/// hold is a 404 and leaves the store without the table, and whatever a
/// successful `Hgetall` of such a table answers carries no pairs.
pub proof fn lemma_lazy_table(s: StoreV, t: Seq<char>, k: Seq<char>, resp: RespV)
    requires
        !s.contains_key(t),
        hgetall_ok(resp, s, t),
    ensures
        spec_hget(s, t, k).status == 404,
        resp.pairs.len() == 0,
{
    assert(st_table(s, t) =~= Map::<Seq<char>, ValueV>::empty());
    if resp.pairs.len() > 0 {
        assert(st_table(s, t).contains_key(resp.pairs[0].key));
    }
}


} // verus!
