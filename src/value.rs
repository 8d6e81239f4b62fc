use vstd::prelude::*;

verus! {

/// The mathematical model of a bencode term.
pub enum Bencode {
    Bytes(Seq<u8>),
    Int(int),
    List(Seq<Bencode>),
    Dict(Seq<(Seq<u8>, Bencode)>),
}

/// A decoded bencode term. Dictionary entries keep the order in which they
/// were read, and keys are raw bytes.
#[derive(Debug, PartialEq, Eq)]
pub enum BencodeValue {
    ByteString(Vec<u8>),
    Integer(i64),
    List(Vec<BencodeValue>),
    Dictionary(Vec<(Vec<u8>, BencodeValue)>),
}

impl View for BencodeValue {
    type V = Bencode;

    open spec fn view(&self) -> Bencode
        decreases self,
    {
        match self {
            BencodeValue::ByteString(b) => Bencode::Bytes(b@),
            BencodeValue::Integer(i) => Bencode::Int(*i as int),
            BencodeValue::List(l) => Bencode::List(
                Seq::new(l.len() as nat, |i: int| if 0 <= i < l.len() { l[i].view() } else { Bencode::Int(0) }),
            ),
            BencodeValue::Dictionary(d) => Bencode::Dict(
                Seq::new(d.len() as nat, |i: int| (d[i].0@, if 0 <= i < d.len() { d[i].1.view() } else { Bencode::Int(0) })),
            ),
        }
    }
}

} // verus!
