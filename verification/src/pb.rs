//! Wire-level data model of the service.
//!
//! A `Value` is a tagged union of the scalar shapes the protocol carries;
//! a `Kvpair` couples a key with a value; a `CommandRequest` is one of the
//! nine hash-style operations and a `CommandResponse` is a status code
//! with values or pairs. Each type has a mathematical view used by the
//! contracts: strings become `Seq<char>`, vectors become `Seq`.

use vstd::prelude::*;

verus! {

/// One protocol value.
///
/// `Empty` is the well-defined absent value: it is what `Value::default()`
/// yields, what a fresh `Hset` reports as the prior value, and what a
/// multi-key result carries for a key that is not present. The `Double`
/// variant holds the bit pattern of an IEEE-754 double, so that the
/// verified core never touches floating point itself.
#[derive(Clone, Debug, PartialEq, PartialOrd)]
pub enum Value {
    Empty,
    Str(String),
    Int(i64),
    Bool(bool),
    Double(u64),
    Binary(Vec<u8>),
}

/// The mathematical shape of a `Value`.
#[verifier::ext_equal]
pub enum ValueV {
    Empty,
    Str(Seq<char>),
    Int(i64),
    Bool(bool),
    Double(u64),
    Binary(Seq<u8>),
}

impl View for Value {
    type V = ValueV;

    open spec fn view(&self) -> ValueV {
        match self {
            Value::Empty => ValueV::Empty,
            Value::Str(s) => ValueV::Str(s@),
            Value::Int(i) => ValueV::Int(*i),
            Value::Bool(b) => ValueV::Bool(*b),
            Value::Double(d) => ValueV::Double(*d),
            Value::Binary(b) => ValueV::Binary(b@),
        }
    }
}

impl Default for Value {
    /// The absent value.
    fn default() -> (r: Value)
        ensures
            r@ == ValueV::Empty,
    {
        Value::Empty
    }
}

impl Value {
    /// A structural copy: the copy and the original have the same view.
    pub fn dup(&self) -> (r: Value)
        ensures
            r@ == self@,
    {
        match self {
            Value::Empty => Value::Empty,
            Value::Str(s) => Value::Str(s.clone()),
            Value::Int(i) => Value::Int(*i),
            Value::Bool(b) => Value::Bool(*b),
            Value::Double(d) => Value::Double(*d),
            Value::Binary(b) => Value::Binary(clone_bytes(b)),
        }
    }
}

/// A structural copy of a byte vector.
fn clone_bytes(b: &Vec<u8>) -> (r: Vec<u8>)
    ensures
        r@ == b@,
{
    let mut out: Vec<u8> = Vec::new();
    let mut i: usize = 0;
    while i < b.len()
        invariant
            i <= b.len(),
            out@ == b@.subrange(0, i as int),
        decreases b.len() - i,
    {
        out.push(b[i]);
        i = i + 1;
        proof {
            assert(out@ =~= b@.subrange(0, i as int));
        }
    }
    proof {
        assert(out@ =~= b@);
    }
    out
}

impl vstd::std_specs::convert::FromSpecImpl<i32> for Value {
    open spec fn obeys_from_spec() -> bool {
        true
    }

    open spec fn from_spec(v: i32) -> Value {
        Value::Int(v as i64)
    }
}

impl From<i32> for Value {
    fn from(v: i32) -> (r: Value) {
        Value::Int(v as i64)
    }
}

impl vstd::std_specs::convert::FromSpecImpl<bool> for Value {
    open spec fn obeys_from_spec() -> bool {
        true
    }

    open spec fn from_spec(v: bool) -> Value {
        Value::Bool(v)
    }
}

impl From<bool> for Value {
    fn from(v: bool) -> (r: Value) {
        Value::Bool(v)
    }
}

impl vstd::std_specs::convert::FromSpecImpl<String> for Value {
    open spec fn obeys_from_spec() -> bool {
        true
    }

    open spec fn from_spec(v: String) -> Value {
        Value::Str(v)
    }
}

impl From<String> for Value {
    fn from(v: String) -> (r: Value) {
        Value::Str(v)
    }
}

impl vstd::std_specs::convert::FromSpecImpl<&str> for Value {
    open spec fn obeys_from_spec() -> bool {
        false
    }

    open spec fn from_spec(v: &str) -> Value {
        arbitrary()
    }
}

impl From<&str> for Value {
    fn from(v: &str) -> (r: Value)
        ensures
            r@ == ValueV::Str(v@),
    {
        Value::Str(v.to_owned())
    }
}

/// A key together with a value. A pair whose value is `Value::Empty`
/// reports that the key is not present.
#[derive(Clone, Debug, PartialEq, PartialOrd)]
pub struct Kvpair {
    pub key: String,
    pub value: Value,
}

/// The mathematical shape of a `Kvpair`.
#[verifier::ext_equal]
pub struct KvpairV {
    pub key: Seq<char>,
    pub value: ValueV,
}

impl View for Kvpair {
    type V = KvpairV;

    open spec fn view(&self) -> KvpairV {
        KvpairV { key: self.key@, value: self.value@ }
    }
}

impl Kvpair {
    /// A pair that carries the given value.
    pub fn new(key: &str, value: Value) -> (r: Kvpair)
        ensures
            r@ == (KvpairV { key: key@, value: value@ }),
    {
        Kvpair { key: key.to_owned(), value }
    }

    /// A pair that reports "key not present".
    pub fn empty_value(key: &str) -> (r: Kvpair)
        ensures
            r@ == (KvpairV { key: key@, value: ValueV::Empty }),
    {
        Kvpair { key: key.to_owned(), value: Value::Empty }
    }

    /// A structural copy: the copy and the original have the same view.
    pub fn dup(&self) -> (r: Kvpair)
        ensures
            r@ == self@,
    {
        Kvpair { key: self.key.clone(), value: self.value.dup() }
    }
}

/// The view of a vector of strings.
pub open spec fn strs_view(s: Seq<String>) -> Seq<Seq<char>> {
    s.map_values(|x: String| x@)
}

/// The view of a vector of pairs.
pub open spec fn pairs_view(s: Seq<Kvpair>) -> Seq<KvpairV> {
    s.map_values(|p: Kvpair| p@)
}

/// The view of a vector of values.
pub open spec fn values_view(s: Seq<Value>) -> Seq<ValueV> {
    s.map_values(|v: Value| v@)
}

/// Sets one pair in a table.
#[derive(Clone, Debug, PartialEq)]
pub struct Hset {
    pub table: String,
    pub pair: Kvpair,
}

/// Reads one key of a table.
#[derive(Clone, Debug, PartialEq)]
pub struct Hget {
    pub table: String,
    pub key: String,
}

/// Reads a whole table.
#[derive(Clone, Debug, PartialEq)]
pub struct Hgetall {
    pub table: String,
}

/// Reads several keys of a table.
#[derive(Clone, Debug, PartialEq)]
pub struct Hmget {
    pub table: String,
    pub keys: Vec<String>,
}

/// Sets several pairs in a table.
#[derive(Clone, Debug, PartialEq)]
pub struct Hmset {
    pub table: String,
    pub pairs: Vec<Kvpair>,
}

/// Deletes one key of a table.
#[derive(Clone, Debug, PartialEq)]
pub struct Hdel {
    pub table: String,
    pub key: String,
}

/// Deletes several keys of a table.
#[derive(Clone, Debug, PartialEq)]
pub struct Hmdel {
    pub table: String,
    pub keys: Vec<String>,
}

/// Tests one key of a table for presence.
#[derive(Clone, Debug, PartialEq)]
pub struct Hexist {
    pub table: String,
    pub key: String,
}

/// Tests several keys of a table for presence.
#[derive(Clone, Debug, PartialEq)]
pub struct Hmexist {
    pub table: String,
    pub keys: Vec<String>,
}

/// One of the nine operations of the protocol.
///
/// A payload that carries none of them is rejected when the frame is
/// decoded, so a decoded request always names an operation.
#[derive(Clone, Debug, PartialEq)]
pub enum CommandRequest {
    Hset(Hset),
    Hget(Hget),
    Hgetall(Hgetall),
    Hmget(Hmget),
    Hmset(Hmset),
    Hdel(Hdel),
    Hmdel(Hmdel),
    Hexist(Hexist),
    Hmexist(Hmexist),
}

/// The mathematical shape of a `CommandRequest`.
#[verifier::ext_equal]
pub enum ReqV {
    Hset { table: Seq<char>, pair: KvpairV },
    Hget { table: Seq<char>, key: Seq<char> },
    Hgetall { table: Seq<char> },
    Hmget { table: Seq<char>, keys: Seq<Seq<char>> },
    Hmset { table: Seq<char>, pairs: Seq<KvpairV> },
    Hdel { table: Seq<char>, key: Seq<char> },
    Hmdel { table: Seq<char>, keys: Seq<Seq<char>> },
    Hexist { table: Seq<char>, key: Seq<char> },
    Hmexist { table: Seq<char>, keys: Seq<Seq<char>> },
}

impl View for CommandRequest {
    type V = ReqV;

    open spec fn view(&self) -> ReqV {
        match self {
            CommandRequest::Hset(c) => ReqV::Hset { table: c.table@, pair: c.pair@ },
            CommandRequest::Hget(c) => ReqV::Hget { table: c.table@, key: c.key@ },
            CommandRequest::Hgetall(c) => ReqV::Hgetall { table: c.table@ },
            CommandRequest::Hmget(c) => ReqV::Hmget { table: c.table@, keys: strs_view(c.keys@) },
            CommandRequest::Hmset(c) => ReqV::Hmset {
                table: c.table@,
                pairs: pairs_view(c.pairs@),
            },
            CommandRequest::Hdel(c) => ReqV::Hdel { table: c.table@, key: c.key@ },
            CommandRequest::Hmdel(c) => ReqV::Hmdel { table: c.table@, keys: strs_view(c.keys@) },
            CommandRequest::Hexist(c) => ReqV::Hexist { table: c.table@, key: c.key@ },
            CommandRequest::Hmexist(c) => ReqV::Hmexist {
                table: c.table@,
                keys: strs_view(c.keys@),
            },
        }
    }
}

impl CommandRequest {
    /// A request that sets `key` to `value` in `table`.
    pub fn new_hset(table: &str, key: &str, value: Value) -> (r: CommandRequest)
        ensures
            r@ == (ReqV::Hset {
                table: table@,
                pair: KvpairV { key: key@, value: value@ },
            }),
    {
        CommandRequest::Hset(Hset { table: table.to_owned(), pair: Kvpair::new(key, value) })
    }

    /// A request that reads `key` of `table`.
    pub fn new_hget(table: &str, key: &str) -> (r: CommandRequest)
        ensures
            r@ == (ReqV::Hget { table: table@, key: key@ }),
    {
        CommandRequest::Hget(Hget { table: table.to_owned(), key: key.to_owned() })
    }

    /// A request that reads all pairs of `table`.
    pub fn new_hgetall(table: &str) -> (r: CommandRequest)
        ensures
            r@ == (ReqV::Hgetall { table: table@ }),
    {
        CommandRequest::Hgetall(Hgetall { table: table.to_owned() })
    }

    /// A request that reads each of `keys` of `table`.
    pub fn new_hmget(table: &str, keys: Vec<String>) -> (r: CommandRequest)
        ensures
            r@ == (ReqV::Hmget { table: table@, keys: strs_view(keys@) }),
    {
        CommandRequest::Hmget(Hmget { table: table.to_owned(), keys })
    }

    /// A request that sets each of `pairs` in `table`.
    pub fn new_hmset(table: &str, pairs: Vec<Kvpair>) -> (r: CommandRequest)
        ensures
            r@ == (ReqV::Hmset { table: table@, pairs: pairs_view(pairs@) }),
    {
        CommandRequest::Hmset(Hmset { table: table.to_owned(), pairs })
    }

    /// A request that deletes `key` of `table`.
    pub fn new_hdel(table: &str, key: &str) -> (r: CommandRequest)
        ensures
            r@ == (ReqV::Hdel { table: table@, key: key@ }),
    {
        CommandRequest::Hdel(Hdel { table: table.to_owned(), key: key.to_owned() })
    }

    /// A request that deletes each of `keys` of `table`.
    pub fn new_hmdel(table: &str, keys: Vec<String>) -> (r: CommandRequest)
        ensures
            r@ == (ReqV::Hmdel { table: table@, keys: strs_view(keys@) }),
    {
        CommandRequest::Hmdel(Hmdel { table: table.to_owned(), keys })
    }

    /// A request that tests `key` of `table` for presence.
    pub fn new_hexist(table: &str, key: &str) -> (r: CommandRequest)
        ensures
            r@ == (ReqV::Hexist { table: table@, key: key@ }),
    {
        CommandRequest::Hexist(Hexist { table: table.to_owned(), key: key.to_owned() })
    }

    /// A request that tests each of `keys` of `table` for presence.
    pub fn new_hmexist(table: &str, keys: Vec<String>) -> (r: CommandRequest)
        ensures
            r@ == (ReqV::Hmexist { table: table@, keys: strs_view(keys@) }),
    {
        CommandRequest::Hmexist(Hmexist { table: table.to_owned(), keys })
    }
}

/// The reply to one request: an HTTP-style status code, a message that is
/// empty on success, and the values or pairs the operation produced.
#[derive(Clone, Debug, PartialEq)]
pub struct CommandResponse {
    pub status: u32,
    pub message: String,
    pub values: Vec<Value>,
    pub pairs: Vec<Kvpair>,
}

/// The mathematical shape of a `CommandResponse`.
#[verifier::ext_equal]
pub struct RespV {
    pub status: u32,
    pub message: Seq<char>,
    pub values: Seq<ValueV>,
    pub pairs: Seq<KvpairV>,
}

impl View for CommandResponse {
    type V = RespV;

    open spec fn view(&self) -> RespV {
        RespV {
            status: self.status,
            message: self.message@,
            values: values_view(self.values@),
            pairs: pairs_view(self.pairs@),
        }
    }
}

} // verus!
