use vstd::prelude::*;

verus! {

/// A message of the wire protocol.
#[derive(Debug, PartialEq)]
pub enum RESPResult {
    SimpleString(String),
    Error(String),
    Integer(i64),
    BulkString(Option<Vec<u8>>),
    Array(Vec<RESPResult>),
}

/// A value that can live in the keyspace.
#[allow(non_camel_case_types)]
#[derive(Debug, PartialEq)]
pub enum DB_TYPE {
    Int(i64),
    Str(String),
    Array(Vec<DB_TYPE>),
}

/// Mathematical model of a wire message.
pub enum Wire {
    Simple(Seq<char>),
    Error(Seq<char>),
    Integer(i64),
    Bulk(Option<Seq<u8>>),
    Array(Seq<Wire>),
}

/// Mathematical model of a stored value.
pub enum Value {
    Int(i64),
    Str(Seq<char>),
    List(Seq<Value>),
}

pub open spec fn wire_of(r: RESPResult) -> Wire
    decreases r,
{
    match r {
        RESPResult::SimpleString(s) => Wire::Simple(s@),
        RESPResult::Error(s) => Wire::Error(s@),
        RESPResult::Integer(i) => Wire::Integer(i),
        RESPResult::BulkString(b) => match b {
            Some(v) => Wire::Bulk(Some(v@)),
            None => Wire::Bulk(None),
        },
        RESPResult::Array(v) => Wire::Array(wires_of(v@)),
    }
}

pub open spec fn wires_of(s: Seq<RESPResult>) -> Seq<Wire>
    decreases s,
{
    if s.len() == 0 {
        Seq::empty()
    } else {
        wires_of(s.drop_last()).push(wire_of(s.last()))
    }
}

impl View for RESPResult {
    type V = Wire;

    open spec fn view(&self) -> Wire {
        wire_of(*self)
    }
}

pub open spec fn value_of(d: DB_TYPE) -> Value
    decreases d,
{
    match d {
        DB_TYPE::Int(i) => Value::Int(i),
        DB_TYPE::Str(s) => Value::Str(s@),
        DB_TYPE::Array(v) => Value::List(values_of(v@)),
    }
}

pub open spec fn values_of(s: Seq<DB_TYPE>) -> Seq<Value>
    decreases s,
{
    if s.len() == 0 {
        Seq::empty()
    } else {
        values_of(s.drop_last()).push(value_of(s.last()))
    }
}

impl View for DB_TYPE {
    type V = Value;

    open spec fn view(&self) -> Value {
        value_of(*self)
    }
}

pub proof fn lemma_wires_of(s: Seq<RESPResult>)
    ensures
        wires_of(s).len() == s.len(),
        forall|i: int| 0 <= i < s.len() ==> #[trigger] wires_of(s)[i] == wire_of(s[i]),
    decreases s.len(),
{
    if s.len() > 0 {
        lemma_wires_of(s.drop_last());
    }
}

pub proof fn lemma_values_of(s: Seq<DB_TYPE>)
    ensures
        values_of(s).len() == s.len(),
        forall|i: int| 0 <= i < s.len() ==> #[trigger] values_of(s)[i] == value_of(s[i]),
    decreases s.len(),
{
    if s.len() > 0 {
        lemma_values_of(s.drop_last());
    }
}

} // verus!
