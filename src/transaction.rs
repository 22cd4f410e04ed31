use vstd::prelude::*;

use crate::decoder::{decode_spec, decode_token, Token, TokenModel, TokenType};
use crate::hash::{
    identity_from_digest, push_u32_le, push_u64_le, push_vi_le, sha256_of, sha256_sum,
    u32_le_bytes, u64_le_bytes, varint_bytes, Hashable,
};
use crate::util::u8_to_hex_string;

verus! {

/// A reference to an earlier output, with the proof that unlocks it.
#[derive(Debug, PartialEq, Eq)]
pub struct TxIn {
    pub prev_hash: Vec<u8>,
    pub prev_index: u32,
    pub script_sig: Vec<u8>,
    pub sequence: u32,
}

/// An amount and the condition that locks it.
#[derive(Debug, PartialEq, Eq)]
pub struct TxOut {
    pub value: u64,
    pub script_pubkey: Vec<u8>,
}

#[derive(Debug, PartialEq, Eq)]
pub struct Transaction {
    pub version: u32,
    pub lock_time: u32,
    pub inputs: Vec<TxIn>,
    pub outputs: Vec<TxOut>,
}

pub struct TxInModel {
    pub prev_hash: Seq<u8>,
    pub prev_index: u32,
    pub script_sig: Seq<u8>,
    pub sequence: u32,
}

pub struct TxOutModel {
    pub value: u64,
    pub script_pubkey: Seq<u8>,
}

pub struct TransactionModel {
    pub version: u32,
    pub lock_time: u32,
    pub inputs: Seq<TxInModel>,
    pub outputs: Seq<TxOutModel>,
}

impl View for TxIn {
    type V = TxInModel;

    open spec fn view(&self) -> TxInModel {
        TxInModel {
            prev_hash: self.prev_hash@,
            prev_index: self.prev_index,
            script_sig: self.script_sig@,
            sequence: self.sequence,
        }
    }
}

impl View for TxOut {
    type V = TxOutModel;

    open spec fn view(&self) -> TxOutModel {
        TxOutModel { value: self.value, script_pubkey: self.script_pubkey@ }
    }
}

impl View for Transaction {
    type V = TransactionModel;

    open spec fn view(&self) -> TransactionModel {
        TransactionModel {
            version: self.version,
            lock_time: self.lock_time,
            inputs: self.inputs@.map_values(|x: TxIn| x@),
            outputs: self.outputs@.map_values(|o: TxOut| o@),
        }
    }
}

/// A transaction as the wire format can carry it: at least one input and one
/// output, 32-byte references, and every length expressible as a `u64`.
pub open spec fn well_formed(t: TransactionModel) -> bool {
    &&& t.inputs.len() >= 1
    &&& t.outputs.len() >= 1
    &&& t.inputs.len() <= u64::MAX
    &&& t.outputs.len() <= u64::MAX
    &&& forall|i: int|
        0 <= i < t.inputs.len() ==> {
            &&& (#[trigger] t.inputs[i]).prev_hash.len() == 32
            &&& t.inputs[i].script_sig.len() <= u64::MAX
        }
    &&& forall|i: int|
        0 <= i < t.outputs.len() ==> (#[trigger] t.outputs[i]).script_pubkey.len() <= u64::MAX
}

// ---------------------------------------------------------------- encoding

pub open spec fn input_bytes(x: TxInModel) -> Seq<u8> {
    x.prev_hash + u32_le_bytes(x.prev_index) + varint_bytes(x.script_sig.len() as u64)
        + x.script_sig + u32_le_bytes(x.sequence)
}

pub open spec fn inputs_bytes(s: Seq<TxInModel>) -> Seq<u8>
    decreases s.len(),
{
    if s.len() == 0 {
        Seq::empty()
    } else {
        input_bytes(s[0]) + inputs_bytes(s.drop_first())
    }
}

pub open spec fn output_bytes(o: TxOutModel) -> Seq<u8> {
    u64_le_bytes(o.value) + varint_bytes(o.script_pubkey.len() as u64) + o.script_pubkey
}

pub open spec fn outputs_bytes(s: Seq<TxOutModel>) -> Seq<u8>
    decreases s.len(),
{
    if s.len() == 0 {
        Seq::empty()
    } else {
        output_bytes(s[0]) + outputs_bytes(s.drop_first())
    }
}

/// The canonical wire encoding of a transaction.
pub open spec fn serialize_spec(t: TransactionModel) -> Seq<u8> {
    u32_le_bytes(t.version) + varint_bytes(t.inputs.len() as u64) + inputs_bytes(t.inputs)
        + varint_bytes(t.outputs.len() as u64) + outputs_bytes(t.outputs) + u32_le_bytes(
        t.lock_time,
    )
}

/// The identifier of a transaction: its encoding hashed twice, bytes reversed.
pub open spec fn txid_spec(t: TransactionModel) -> Seq<u8> {
    sha256_of(sha256_of(serialize_spec(t))).reverse()
}

// ---------------------------------------------------------------- decoding

pub open spec fn read_int(s: Seq<u8>, p: int, kind: TokenType) -> Option<(u64, int)> {
    match decode_spec(s, p, kind) {
        (TokenModel::Integer(v), q) => Some((v, q)),
        _ => None,
    }
}

pub open spec fn read_bytes(s: Seq<u8>, p: int, n: u64) -> Option<(Seq<u8>, int)> {
    match decode_spec(s, p, TokenType::Bytestring(n)) {
        (TokenModel::String(b), q) => Some((b, q)),
        _ => None,
    }
}

/// One input read at `p`, and the position after it.
pub open spec fn input_at(s: Seq<u8>, p: int) -> Option<(TxInModel, int)> {
    match read_bytes(s, p, 32) {
        None => None,
        Some((h, p1)) => match read_int(s, p1, TokenType::Unsigned32) {
            None => None,
            Some((idx, p2)) => match read_int(s, p2, TokenType::VarInt) {
                None => None,
                Some((len, p3)) => match read_bytes(s, p3, len) {
                    None => None,
                    Some((sig, p4)) => match read_int(s, p4, TokenType::Unsigned32) {
                        None => None,
                        Some((sq, p5)) => Some(
                            (
                                TxInModel {
                                    prev_hash: h,
                                    prev_index: idx as u32,
                                    script_sig: sig,
                                    sequence: sq as u32,
                                },
                                p5,
                            ),
                        ),
                    },
                },
            },
        },
    }
}

/// `n` inputs read one after another from `p`, and the position after them.
pub open spec fn inputs_at(s: Seq<u8>, p: int, n: nat) -> Option<(Seq<TxInModel>, int)>
    decreases n,
{
    if n == 0 {
        Some((Seq::empty(), p))
    } else {
        match input_at(s, p) {
            None => None,
            Some((x, q)) => match inputs_at(s, q, (n - 1) as nat) {
                None => None,
                Some((xs, r)) => Some((seq![x] + xs, r)),
            },
        }
    }
}

/// One output read at `p`, and the position after it.
pub open spec fn output_at(s: Seq<u8>, p: int) -> Option<(TxOutModel, int)> {
    match read_int(s, p, TokenType::Unsigned64) {
        None => None,
        Some((v, p1)) => match read_int(s, p1, TokenType::VarInt) {
            None => None,
            Some((len, p2)) => match read_bytes(s, p2, len) {
                None => None,
                Some((script, p3)) => Some((TxOutModel { value: v, script_pubkey: script }, p3)),
            },
        },
    }
}

/// `n` outputs read one after another from `p`, and the position after them.
pub open spec fn outputs_at(s: Seq<u8>, p: int, n: nat) -> Option<(Seq<TxOutModel>, int)>
    decreases n,
{
    if n == 0 {
        Some((Seq::empty(), p))
    } else {
        match output_at(s, p) {
            None => None,
            Some((o, q)) => match outputs_at(s, q, (n - 1) as nat) {
                None => None,
                Some((os, r)) => Some((seq![o] + os, r)),
            },
        }
    }
}

/// The transaction that the bytes `s` start with, and where it ends; `None`
/// when they are cut short or declare no inputs or no outputs.
pub open spec fn parse_at(s: Seq<u8>) -> Option<(TransactionModel, int)> {
    match read_int(s, 0, TokenType::Unsigned32) {
        None => None,
        Some((version, p1)) => match read_int(s, p1, TokenType::VarInt) {
            None => None,
            Some((n_in, p2)) => if n_in == 0 {
                None
            } else {
                match inputs_at(s, p2, n_in as nat) {
                    None => None,
                    Some((ins, p3)) => match read_int(s, p3, TokenType::VarInt) {
                        None => None,
                        Some((n_out, p4)) => if n_out == 0 {
                            None
                        } else {
                            match outputs_at(s, p4, n_out as nat) {
                                None => None,
                                Some((outs, p5)) => match read_int(
                                    s,
                                    p5,
                                    TokenType::Unsigned32,
                                ) {
                                    None => None,
                                    Some((lock, p6)) => Some(
                                        (
                                            TransactionModel {
                                                version: version as u32,
                                                lock_time: lock as u32,
                                                inputs: ins,
                                                outputs: outs,
                                            },
                                            p6,
                                        ),
                                    ),
                                },
                            }
                        },
                    },
                }
            },
        },
    }
}

/// The transaction that the bytes `s` start with; bytes after it are ignored.
pub open spec fn parse_spec(s: Seq<u8>) -> Option<TransactionModel> {
    match parse_at(s) {
        None => None,
        Some((t, _)) => Some(t),
    }
}


// ---------------------------------------------------------------- copies

/// A fresh copy of a byte buffer.
pub(crate) fn copy_bytes(v: &Vec<u8>) -> (r: Vec<u8>)
    ensures
        r@ == v@,
{
    let r = v.clone();
    assert(r@ =~= v@);
    r
}

impl Clone for TxOut {
    fn clone(&self) -> (r: TxOut)
        ensures
            r@ == self@,
    {
        TxOut { value: self.value, script_pubkey: copy_bytes(&self.script_pubkey) }
    }
}

impl Clone for TxIn {
    fn clone(&self) -> (r: TxIn)
        ensures
            r@ == self@,
    {
        TxIn {
            prev_hash: copy_bytes(&self.prev_hash),
            prev_index: self.prev_index,
            script_sig: copy_bytes(&self.script_sig),
            sequence: self.sequence,
        }
    }
}

impl Clone for Transaction {
    fn clone(&self) -> (r: Transaction)
        ensures
            r@ == self@,
    {
        let mut inputs: Vec<TxIn> = Vec::new();
        let mut i: usize = 0;
        while i < self.inputs.len()
            invariant
                i <= self.inputs@.len(),
                inputs@.map_values(|x: TxIn| x@) == self@.inputs.take(i as int),
            decreases self.inputs@.len() - i,
        {
            let ghost before = inputs@.map_values(|x: TxIn| x@);
            let x = self.inputs[i].clone();
            inputs.push(x);
            assert(inputs@.map_values(|x: TxIn| x@) =~= before.push(x@));
            assert(self@.inputs.take(i + 1) =~= self@.inputs.take(i as int).push(x@));
            i = i + 1;
        }
        let mut outputs: Vec<TxOut> = Vec::new();
        let mut j: usize = 0;
        while j < self.outputs.len()
            invariant
                j <= self.outputs@.len(),
                outputs@.map_values(|o: TxOut| o@) == self@.outputs.take(j as int),
            decreases self.outputs@.len() - j,
        {
            let ghost before = outputs@.map_values(|o: TxOut| o@);
            let o = self.outputs[j].clone();
            outputs.push(o);
            assert(outputs@.map_values(|o: TxOut| o@) =~= before.push(o@));
            assert(self@.outputs.take(j + 1) =~= self@.outputs.take(j as int).push(o@));
            j = j + 1;
        }
        assert(self@.inputs.take(i as int) =~= self@.inputs);
        assert(self@.outputs.take(j as int) =~= self@.outputs);
        Transaction { version: self.version, lock_time: self.lock_time, inputs, outputs }
    }
}

// ---------------------------------------------------------------- parser

fn read_input(data: &[u8], pos: &mut usize) -> (r: Option<TxIn>)
    requires
        *old(pos) <= data@.len(),
    ensures
        *final(pos) <= data@.len(),
        match r {
            Some(x) => input_at(data@, *old(pos) as int) == Some((x@, *final(pos) as int)),
            None => input_at(data@, *old(pos) as int) is None,
        },
{
    let prev_hash = match decode_token(data, pos, TokenType::Bytestring(32)) {
        Token::String(s) => s,
        _ => return None,
    };
    let prev_index = match decode_token(data, pos, TokenType::Unsigned32) {
        Token::Integer(n) => n as u32,
        _ => return None,
    };
    let script_sig = match decode_token(data, pos, TokenType::VarInt) {
        Token::Integer(0) => {
            assert(data@.subrange(*pos as int, *pos as int) =~= Seq::<u8>::empty());
            Vec::new()
        },
        Token::Integer(n) => match decode_token(data, pos, TokenType::Bytestring(n)) {
            Token::String(s) => s,
            _ => return None,
        },
        _ => return None,
    };
    let sequence = match decode_token(data, pos, TokenType::Unsigned32) {
        Token::Integer(n) => n as u32,
        _ => return None,
    };
    Some(TxIn { prev_hash, prev_index, script_sig, sequence })
}

fn read_output(data: &[u8], pos: &mut usize) -> (r: Option<TxOut>)
    requires
        *old(pos) <= data@.len(),
    ensures
        *final(pos) <= data@.len(),
        match r {
            Some(o) => output_at(data@, *old(pos) as int) == Some((o@, *final(pos) as int)),
            None => output_at(data@, *old(pos) as int) is None,
        },
{
    let value = match decode_token(data, pos, TokenType::Unsigned64) {
        Token::Integer(n) => n,
        _ => return None,
    };
    let script_pubkey = match decode_token(data, pos, TokenType::VarInt) {
        Token::Integer(0) => {
            assert(data@.subrange(*pos as int, *pos as int) =~= Seq::<u8>::empty());
            Vec::new()
        },
        Token::Integer(n) => match decode_token(data, pos, TokenType::Bytestring(n)) {
            Token::String(s) => s,
            _ => return None,
        },
        _ => return None,
    };
    Some(TxOut { value, script_pubkey })
}

/// Parses a transaction from the start of `hex_string` (raw bytes, already
/// decoded from hexadecimal text). Bytes after the transaction are ignored.
/// Fails on a truncated input and on a zero input or output count.
pub fn from_hex(hex_string: &[u8]) -> (r: Option<Transaction>)
    ensures
        match r {
            Some(t) => parse_spec(hex_string@) == Some(t@),
            None => parse_spec(hex_string@) is None,
        },
{
    let data = hex_string;
    let ghost s = data@;
    let mut pos: usize = 0;
    let version = match decode_token(data, &mut pos, TokenType::Unsigned32) {
        Token::Integer(n) => n as u32,
        _ => return None,
    };
    let n_in = match decode_token(data, &mut pos, TokenType::VarInt) {
        Token::Integer(0) => return None,
        Token::Integer(n) => n,
        _ => return None,
    };
    let ghost p_in = pos as int;
    assert(read_int(s, 0, TokenType::Unsigned32) == Some((version as u64, 4int)));
    assert(read_int(s, 4, TokenType::VarInt) == Some((n_in, p_in)));
    let mut inputs: Vec<TxIn> = Vec::new();
    let mut k: u64 = 0;
    while k < n_in
        invariant
            pos <= s.len(),
            s == data@,
            s == hex_string@,
            k <= n_in,
            n_in != 0,
            read_int(s, 0, TokenType::Unsigned32) == Some((version as u64, 4int)),
            read_int(s, 4, TokenType::VarInt) == Some((n_in, p_in)),
            inputs_at(s, p_in, n_in as nat) == match inputs_at(s, pos as int, (n_in - k) as nat) {
                None => None,
                Some((xs, q)) => Some((inputs@.map_values(|x: TxIn| x@) + xs, q)),
            },
        decreases n_in - k,
    {
        let ghost before = inputs@.map_values(|x: TxIn| x@);
        let ghost p0 = pos as int;
        match read_input(data, &mut pos) {
            Some(x) => {
                proof {
                    let rest = inputs_at(s, pos as int, (n_in - k - 1) as nat);
                    if let Some((xs, q)) = rest {
                        assert(before + (seq![x@] + xs) =~= before.push(x@) + xs);
                    }
                }
                inputs.push(x);
                assert(inputs@.map_values(|x: TxIn| x@) =~= before.push(x@));
            },
            None => {
                assert(inputs_at(s, p0, (n_in - k) as nat) is None);
                assert(inputs_at(s, p_in, n_in as nat) is None);
                return None;
            },
        }
        k = k + 1;
    }
    assert(inputs@.map_values(|x: TxIn| x@) + Seq::<TxInModel>::empty() =~= inputs@.map_values(|x: TxIn| x@));
    let ghost p_vout = pos as int;
    let n_out = match decode_token(data, &mut pos, TokenType::VarInt) {
        Token::Integer(0) => return None,
        Token::Integer(n) => n,
        _ => return None,
    };
    let ghost p_out = pos as int;
    let ghost ins = inputs@.map_values(|x: TxIn| x@);
    assert(read_int(s, p_vout, TokenType::VarInt) == Some((n_out, p_out)));
    let mut outputs: Vec<TxOut> = Vec::new();
    let mut k: u64 = 0;
    while k < n_out
        invariant
            pos <= s.len(),
            s == data@,
            s == hex_string@,
            k <= n_out,
            n_in != 0,
            n_out != 0,
            read_int(s, 0, TokenType::Unsigned32) == Some((version as u64, 4int)),
            read_int(s, 4, TokenType::VarInt) == Some((n_in, p_in)),
            inputs_at(s, p_in, n_in as nat) == Some((ins, p_vout)),
            read_int(s, p_vout, TokenType::VarInt) == Some((n_out, p_out)),
            inputs@.map_values(|x: TxIn| x@) == ins,
            outputs_at(s, p_out, n_out as nat) == match outputs_at(s, pos as int, (n_out - k) as nat) {
                None => None,
                Some((os, q)) => Some((outputs@.map_values(|o: TxOut| o@) + os, q)),
            },
        decreases n_out - k,
    {
        let ghost before = outputs@.map_values(|o: TxOut| o@);
        let ghost p0 = pos as int;
        match read_output(data, &mut pos) {
            Some(o) => {
                proof {
                    let rest = outputs_at(s, pos as int, (n_out - k - 1) as nat);
                    if let Some((os, q)) = rest {
                        assert(before + (seq![o@] + os) =~= before.push(o@) + os);
                    }
                }
                outputs.push(o);
                assert(outputs@.map_values(|o: TxOut| o@) =~= before.push(o@));
            },
            None => {
                assert(outputs_at(s, p0, (n_out - k) as nat) is None);
                assert(outputs_at(s, p_out, n_out as nat) is None);
                return None;
            },
        }
        k = k + 1;
    }
    assert(outputs@.map_values(|o: TxOut| o@) + Seq::<TxOutModel>::empty() =~= outputs@.map_values(|o: TxOut| o@));
    let lock_time = match decode_token(data, &mut pos, TokenType::Unsigned32) {
        Token::Integer(n) => n as u32,
        _ => return None,
    };
    let t = Transaction { version, lock_time, inputs, outputs };
    assert(t@.inputs == inputs@.map_values(|x: TxIn| x@));
    Some(t)
}


// ---------------------------------------------------------------- most popular output

/// How many times `v` occurs in `s`.
pub open spec fn count_of(s: Seq<u64>, v: u64) -> nat
    decreases s.len(),
{
    if s.len() == 0 {
        0
    } else {
        count_of(s.drop_last(), v) + if s.last() == v {
            1nat
        } else {
            0nat
        }
    }
}

/// How many times `v` can be divided by ten and stay a whole number; zero,
/// which divides forever, counts as 20 (no other `u64` reaches that).
pub open spec fn decimal_zeros(v: u64) -> nat
    decreases v,
{
    if v == 0 {
        20
    } else if v % 10 == 0 {
        1 + decimal_zeros(v / 10)
    } else {
        0
    }
}

/// Whether `a` is a better guess than `b` at the shared payment among the
/// values `s`: it occurs more often, or as often and is a rounder number.
pub open spec fn more_popular(s: Seq<u64>, a: u64, b: u64) -> bool {
    count_of(s, a) > count_of(s, b) || (count_of(s, a) == count_of(s, b) && decimal_zeros(a)
        > decimal_zeros(b))
}

pub open spec fn output_values(t: TransactionModel) -> Seq<u64> {
    t.outputs.map_values(|o: TxOutModel| o.value)
}

fn count_value(outputs: &Vec<TxOut>, v: u64) -> (r: usize)
    ensures
        r == count_of(outputs@.map_values(|o: TxOut| o@.value), v),
{
    let ghost vals = outputs@.map_values(|o: TxOut| o@.value);
    let mut c: usize = 0;
    let mut i: usize = 0;
    while i < outputs.len()
        invariant
            vals == outputs@.map_values(|o: TxOut| o@.value),
            i <= outputs@.len(),
            c <= i,
            c == count_of(vals.take(i as int), v),
        decreases outputs@.len() - i,
    {
        assert(vals.take(i + 1).drop_last() =~= vals.take(i as int));
        if outputs[i].value == v {
            c = c + 1;
        }
        i = i + 1;
    }
    assert(vals.take(i as int) =~= vals);
    c
}

fn decimal_zeros_of(v: u64) -> (r: u64)
    ensures
        r == decimal_zeros(v),
{
    if v == 0 {
        return 20;
    }
    let mut x = v;
    let mut k: u64 = 0;
    while x % 10 == 0
        invariant
            0 < x <= v,
            k <= v - x,
            k + decimal_zeros(x) == decimal_zeros(v),
        decreases x,
    {
        x = x / 10;
        k = k + 1;
    }
    k
}

impl Transaction {
    /// The canonical wire encoding.
    pub fn serialize(&self) -> (r: Vec<u8>)
        ensures
            r@ == serialize_spec(self@),
    {
        let ghost t = self@;
        let mut rv: Vec<u8> = Vec::new();
        rv = push_u32_le(rv, self.version);
        rv = push_vi_le(rv, self.inputs.len() as u64);
        let ghost head = rv@;
        assert(t.inputs.subrange(0, t.inputs.len() as int) =~= t.inputs);
        let mut i: usize = 0;
        while i < self.inputs.len()
            invariant
                t == self@,
                i <= t.inputs.len(),
                rv@ + inputs_bytes(t.inputs.subrange(i as int, t.inputs.len() as int)) == head
                    + inputs_bytes(t.inputs),
            decreases t.inputs.len() - i,
        {
            let ghost before = rv@;
            let txin = &self.inputs[i];
            assert(t.inputs.subrange(i as int, t.inputs.len() as int).drop_first()
                =~= t.inputs.subrange(i + 1, t.inputs.len() as int));
            rv.extend_from_slice(txin.prev_hash.as_slice());
            rv = push_u32_le(rv, txin.prev_index);
            rv = push_vi_le(rv, txin.script_sig.len() as u64);
            rv.extend_from_slice(txin.script_sig.as_slice());
            rv = push_u32_le(rv, txin.sequence);
            assert(rv@ =~= before + input_bytes(t.inputs[i as int]));
            assert(rv@ + inputs_bytes(t.inputs.subrange(i + 1, t.inputs.len() as int)) =~= before
                + inputs_bytes(t.inputs.subrange(i as int, t.inputs.len() as int)));
            i = i + 1;
        }
        assert(rv@ + inputs_bytes(t.inputs.subrange(i as int, t.inputs.len() as int)) =~= rv@);
        rv = push_vi_le(rv, self.outputs.len() as u64);
        let ghost head2 = rv@;
        assert(t.outputs.subrange(0, t.outputs.len() as int) =~= t.outputs);
        let mut j: usize = 0;
        while j < self.outputs.len()
            invariant
                t == self@,
                j <= t.outputs.len(),
                rv@ + outputs_bytes(t.outputs.subrange(j as int, t.outputs.len() as int))
                    == head2 + outputs_bytes(t.outputs),
            decreases t.outputs.len() - j,
        {
            let ghost before = rv@;
            let txout = &self.outputs[j];
            assert(t.outputs.subrange(j as int, t.outputs.len() as int).drop_first()
                =~= t.outputs.subrange(j + 1, t.outputs.len() as int));
            rv = push_u64_le(rv, txout.value);
            rv = push_vi_le(rv, txout.script_pubkey.len() as u64);
            rv.extend_from_slice(txout.script_pubkey.as_slice());
            assert(rv@ =~= before + output_bytes(t.outputs[j as int]));
            assert(rv@ + outputs_bytes(t.outputs.subrange(j + 1, t.outputs.len() as int))
                =~= before + outputs_bytes(t.outputs.subrange(j as int, t.outputs.len() as int)));
            j = j + 1;
        }
        assert(rv@ + outputs_bytes(t.outputs.subrange(j as int, t.outputs.len() as int)) =~= rv@);
        rv = push_u32_le(rv, self.lock_time);
        assert(rv@ =~= serialize_spec(t));
        rv
    }

    /// The canonical encoding as lowercase hexadecimal text.
    pub fn to_str(&self) -> (r: String)
        ensures
            r@ == crate::util::hex_spec(serialize_spec(self@)),
    {
        let bytes = self.serialize();
        u8_to_hex_string(bytes.as_slice())
    }

    /// The output value most likely to be the payment shared by all
    /// participants: the value that occurs most often; between values that
    /// occur equally often, the rounder one (the one that stays a multiple of
    /// ten through more divisions by ten); between values equal in both, the
    /// one that occurs first. Zero when there are no outputs.
    pub fn most_popular_output(&self) -> (r: u64)
        ensures
            output_values(self@).len() == 0 ==> r == 0,
            output_values(self@).len() > 0 ==> exists|i: int|
                0 <= i < output_values(self@).len() && r == output_values(self@)[i] && (forall|
                    j: int,
                | 0 <= j < output_values(self@).len() ==> !more_popular(
                    output_values(self@),
                    #[trigger] output_values(self@)[j],
                    r,
                )) && (forall|j: int|
                    0 <= j < i ==> more_popular(
                        output_values(self@),
                        r,
                        #[trigger] output_values(self@)[j],
                    )),
    {
        let ghost vals = output_values(self@);
        assert(vals =~= self.outputs@.map_values(|o: TxOut| o@.value));
        let n = self.outputs.len();
        if n == 0 {
            return 0;
        }
        let mut best: usize = 0;
        let mut best_value = self.outputs[0].value;
        let mut best_count = count_value(&self.outputs, best_value);
        let mut best_zeros = decimal_zeros_of(best_value);
        let mut i: usize = 1;
        while i < n
            invariant
                n == vals.len(),
                vals == output_values(self@),
                vals =~= self.outputs@.map_values(|o: TxOut| o@.value),
                1 <= i <= n,
                best < i,
                best_value == vals[best as int],
                best_count == count_of(vals, best_value),
                best_zeros == decimal_zeros(best_value),
                forall|j: int| 0 <= j < i ==> !more_popular(vals, #[trigger] vals[j], best_value),
                forall|j: int| 0 <= j < best ==> more_popular(vals, best_value, #[trigger] vals[j]),
            decreases n - i,
        {
            let v = self.outputs[i].value;
            let c = count_value(&self.outputs, v);
            let z = decimal_zeros_of(v);
            if c > best_count || (c == best_count && z > best_zeros) {
                best = i;
                best_value = v;
                best_count = c;
                best_zeros = z;
            }
            i = i + 1;
        }
        best_value
    }
}

impl Hashable for Transaction {
    open spec fn identity(&self) -> Seq<u8> {
        txid_spec(self@)
    }

    /// The transaction identifier: the encoding hashed twice with SHA-256,
    /// bytes reversed.
    fn to_hash(&self) -> (r: Vec<u8>) {
        let bytes = self.serialize();
        let once = sha256_sum(bytes.as_slice());
        let twice = sha256_sum(once.as_slice());
        identity_from_digest(&twice)
    }
}

} // verus!
