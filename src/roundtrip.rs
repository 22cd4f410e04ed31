use vstd::prelude::*;

use crate::decoder::{be_value_at, decode_spec, fixed_spec, le_value_at, TokenModel, TokenType};
use crate::hash::{u32_le_bytes, u64_le_bytes, varint_bytes};
use crate::transaction::{
    input_at, input_bytes, inputs_at, inputs_bytes, output_at, output_bytes, outputs_at,
    outputs_bytes, parse_at, parse_spec, read_bytes, read_int, serialize_spec, well_formed,
    TransactionModel, TxInModel, TxOutModel,
};

verus! {

/// `s` holds the bytes `x` from position `p` on, as far as `s` reaches.
pub open spec fn agrees(s: Seq<u8>, p: int, x: Seq<u8>) -> bool {
    &&& 0 <= p <= s.len()
    &&& forall|k: int| 0 <= k < x.len() && p + k < s.len() ==> s[p + k] == #[trigger] x[k]
}

proof fn lemma_agrees_split(s: Seq<u8>, p: int, a: Seq<u8>, b: Seq<u8>)
    requires
        agrees(s, p, a + b),
    ensures
        agrees(s, p, a),
        p + a.len() <= s.len() ==> agrees(s, p + a.len(), b),
{
    assert forall|k: int| 0 <= k < a.len() && p + k < s.len() implies s[p + k] == #[trigger] a[k] by {
        assert((a + b)[k] == a[k]);
    }
    if p + a.len() <= s.len() {
        assert forall|k: int| 0 <= k < b.len() && p + a.len() + k < s.len() implies s[p + a.len()
            + k] == #[trigger] b[k] by {
            assert((a + b)[a.len() + k] == b[k]);
        }
    }
}

proof fn lemma_read_bytes(s: Seq<u8>, p: int, b: Seq<u8>)
    requires
        agrees(s, p, b),
        b.len() <= u64::MAX,
    ensures
        p + b.len() <= s.len() ==> read_bytes(s, p, b.len() as u64) == Some((b, p + b.len())),
        p + b.len() > s.len() ==> read_bytes(s, p, b.len() as u64) is None,
{
    if p + b.len() <= s.len() {
        assert(s.subrange(p, p + b.len()) =~= b);
    }
}

/// The value that the four bytes written for `v` give when read most
/// significant first.
pub open spec fn reread_u32(v: u32) -> u32 {
    be_value_at(u32_le_bytes(v), 0, 4) as u32
}

/// The value that the eight bytes written for `v` give when read most
/// significant first.
pub open spec fn reread_u64(v: u64) -> u64 {
    be_value_at(u64_le_bytes(v), 0, 8) as u64
}

proof fn lemma_read_u32(s: Seq<u8>, p: int, v: u32)
    requires
        agrees(s, p, u32_le_bytes(v)),
    ensures
        p + 4 <= s.len() ==> read_int(s, p, TokenType::Unsigned32) == Some(
            (reread_u32(v) as u64, p + 4),
        ),
        p + 4 > s.len() ==> read_int(s, p, TokenType::Unsigned32) is None,
{
    let x = u32_le_bytes(v);
    if p + 4 <= s.len() {
        assert(s[p] == x[0] && s[p + 1] == x[1] && s[p + 2] == x[2] && s[p + 3] == x[3]);
        assert(be_value_at(s, p, 4) == be_value_at(x, 0, 4));
    }
}

proof fn lemma_read_u64(s: Seq<u8>, p: int, v: u64)
    requires
        agrees(s, p, u64_le_bytes(v)),
    ensures
        p + 8 <= s.len() ==> read_int(s, p, TokenType::Unsigned64) == Some(
            (reread_u64(v), p + 8),
        ),
        p + 8 > s.len() ==> read_int(s, p, TokenType::Unsigned64) is None,
{
    let x = u64_le_bytes(v);
    if p + 8 <= s.len() {
        assert(s[p] == x[0] && s[p + 1] == x[1] && s[p + 2] == x[2] && s[p + 3] == x[3]);
        assert(s[p + 4] == x[4] && s[p + 5] == x[5] && s[p + 6] == x[6] && s[p + 7] == x[7]);
        assert(be_value_at(s, p, 8) == be_value_at(x, 0, 8));
    }
}

/// Reading a compact integer where its encoding stands gives it back and
/// moves past the encoding; where the input stops inside the encoding, the
/// read fails.
pub proof fn lemma_read_varint(s: Seq<u8>, p: int, v: u64)
    requires
        agrees(s, p, varint_bytes(v)),
    ensures
        p + varint_bytes(v).len() <= s.len() ==> read_int(s, p, TokenType::VarInt) == Some(
            (v, p + varint_bytes(v).len()),
        ),
        p + varint_bytes(v).len() > s.len() ==> read_int(s, p, TokenType::VarInt) is None,
{
    let x = varint_bytes(v);
    if p < s.len() {
        assert(s[p] == x[0]);
    }
    if v <= 0xfc {
        if p < s.len() {
            assert((v as u8) as u64 == v) by (bit_vector)
                requires
                    v <= 0xfc,
            ;
        }
    } else if v <= 0xffff {
        assert(x[0] == 0xfd);
        if p + 3 <= s.len() {
            assert(s[p + 1] == x[1] && s[p + 2] == x[2]);
            assert(((v as u8) as u64) + (((v >> 8u64) as u8) as u64) * 0x100u64 == v)
                by (bit_vector)
                requires
                    v <= 0xffff,
            ;
        }
    } else if v <= 0xffff_ffff {
        assert(x[0] == 0xfe);
        if p + 5 <= s.len() {
            let w = v as u32;
            assert(s[p + 1] == x[1] && s[p + 2] == x[2] && s[p + 3] == x[3] && s[p + 4] == x[4]);
            assert(((w as u8) as u64) + (((w >> 8u32) as u8) as u64) * 0x100u64 + (((w
                >> 16u32) as u8) as u64) * 0x10000u64 + (((w >> 24u32) as u8) as u64)
                * 0x1000000u64 == v) by (bit_vector)
                requires
                    v <= 0xffff_ffffu64,
                    w == v as u32,
            ;
        }
    } else {
        assert(x[0] == 0xff);
        if p + 9 <= s.len() {
            assert(s[p + 1] == x[1] && s[p + 2] == x[2] && s[p + 3] == x[3] && s[p + 4] == x[4]);
            assert(s[p + 5] == x[5] && s[p + 6] == x[6] && s[p + 7] == x[7] && s[p + 8] == x[8]);
            assert(((v as u8) as u64) + (((v >> 8u64) as u8) as u64) * 0x100u64 + (((v
                >> 16u64) as u8) as u64) * 0x10000u64 + (((v >> 24u64) as u8) as u64)
                * 0x1000000u64 + (((v >> 32u64) as u8) as u64) * 0x100000000u64 + (((v
                >> 40u64) as u8) as u64) * 0x10000000000u64 + (((v >> 48u64) as u8) as u64)
                * 0x1000000000000u64 + (((v >> 56u64) as u8) as u64) * 0x100000000000000u64
                == v) by (bit_vector);
        }
    }
}

/// Every `u64` written as a compact integer reads back as itself, and the
/// encoding takes one byte below 0xfd, three up to 0xffff, five up to
/// 0xffff_ffff and nine above.
pub proof fn lemma_varint_round_trip(v: u64)
    ensures
        decode_spec(varint_bytes(v), 0, TokenType::VarInt) == (
            TokenModel::Integer(v),
            varint_bytes(v).len() as int,
        ),
        v <= 0xfc ==> varint_bytes(v).len() == 1,
        0xfd <= v <= 0xffff ==> varint_bytes(v).len() == 3 && varint_bytes(v)[0] == 0xfd,
        0x10000 <= v <= 0xffff_ffff ==> varint_bytes(v).len() == 5 && varint_bytes(v)[0] == 0xfe,
        0x1_0000_0000 <= v ==> varint_bytes(v).len() == 9 && varint_bytes(v)[0] == 0xff,
{
    lemma_read_varint(varint_bytes(v), 0, v);
}


/// An input as the parser gives it back from its encoding.
pub open spec fn reread_input(x: TxInModel) -> TxInModel {
    TxInModel {
        prev_hash: x.prev_hash,
        prev_index: reread_u32(x.prev_index),
        script_sig: x.script_sig,
        sequence: reread_u32(x.sequence),
    }
}

/// An output as the parser gives it back from its encoding.
pub open spec fn reread_output(o: TxOutModel) -> TxOutModel {
    TxOutModel { value: reread_u64(o.value), script_pubkey: o.script_pubkey }
}

/// A transaction as the parser gives it back from its encoding: the
/// variable-length parts are kept and each fixed-width integer, written least
/// significant byte first, is read most significant byte first.
pub open spec fn reread(t: TransactionModel) -> TransactionModel {
    TransactionModel {
        version: reread_u32(t.version),
        lock_time: reread_u32(t.lock_time),
        inputs: t.inputs.map_values(|x: TxInModel| reread_input(x)),
        outputs: t.outputs.map_values(|o: TxOutModel| reread_output(o)),
    }
}

/// Every fixed-width integer of `t` reads back as itself (its bytes are the
/// same in either order).
pub open spec fn fixed_fields_read_back(t: TransactionModel) -> bool {
    &&& reread_u32(t.version) == t.version
    &&& reread_u32(t.lock_time) == t.lock_time
    &&& forall|i: int|
        0 <= i < t.inputs.len() ==> reread_u32((#[trigger] t.inputs[i]).prev_index)
            == t.inputs[i].prev_index && reread_u32(t.inputs[i].sequence) == t.inputs[i].sequence
    &&& forall|i: int|
        0 <= i < t.outputs.len() ==> reread_u64((#[trigger] t.outputs[i]).value)
            == t.outputs[i].value
}

proof fn lemma_read_input(s: Seq<u8>, p: int, x: TxInModel)
    requires
        agrees(s, p, input_bytes(x)),
        x.prev_hash.len() == 32,
        x.script_sig.len() <= u64::MAX,
    ensures
        p + input_bytes(x).len() <= s.len() ==> input_at(s, p) == Some(
            (reread_input(x), p + input_bytes(x).len()),
        ),
        p + input_bytes(x).len() > s.len() ==> input_at(s, p) is None,
{
    let h = x.prev_hash;
    let a = u32_le_bytes(x.prev_index);
    let n = varint_bytes(x.script_sig.len() as u64);
    let g = x.script_sig;
    let q = u32_le_bytes(x.sequence);
    lemma_agrees_split(s, p, h + a + n + g, q);
    lemma_agrees_split(s, p, h + a + n, g);
    lemma_agrees_split(s, p, h + a, n);
    lemma_agrees_split(s, p, h, a);
    lemma_read_bytes(s, p, h);
    if p + h.len() <= s.len() {
        let p1 = p + h.len();
        lemma_read_u32(s, p1, x.prev_index);
        if p1 + 4 <= s.len() {
            let p2 = p1 + 4;
            lemma_read_varint(s, p2, x.script_sig.len() as u64);
            if p2 + n.len() <= s.len() {
                let p3 = p2 + n.len();
                lemma_read_bytes(s, p3, g);
                if p3 + g.len() <= s.len() {
                    let p4 = p3 + g.len();
                    lemma_read_u32(s, p4, x.sequence);
                }
            }
        }
    }
}

proof fn lemma_read_inputs(s: Seq<u8>, p: int, xs: Seq<TxInModel>)
    requires
        agrees(s, p, inputs_bytes(xs)),
        forall|i: int|
            0 <= i < xs.len() ==> (#[trigger] xs[i]).prev_hash.len() == 32
                && xs[i].script_sig.len() <= u64::MAX,
    ensures
        p + inputs_bytes(xs).len() <= s.len() ==> inputs_at(s, p, xs.len()) == Some(
            (xs.map_values(|x: TxInModel| reread_input(x)), p + inputs_bytes(xs).len()),
        ),
        p + inputs_bytes(xs).len() > s.len() ==> inputs_at(s, p, xs.len()) is None,
    decreases xs.len(),
{
    if xs.len() == 0 {
        assert(xs.map_values(|x: TxInModel| reread_input(x)) =~= Seq::<TxInModel>::empty());
    } else {
        let first = input_bytes(xs[0]);
        let rest = xs.drop_first();
        lemma_agrees_split(s, p, first, inputs_bytes(rest));
        lemma_read_input(s, p, xs[0]);
        if p + first.len() <= s.len() {
            assert forall|i: int| 0 <= i < rest.len() implies (#[trigger] rest[i]).prev_hash.len()
                == 32 && rest[i].script_sig.len() <= u64::MAX by {
                assert(rest[i] == xs[i + 1]);
            }
            lemma_read_inputs(s, p + first.len(), rest);
            assert(seq![reread_input(xs[0])] + rest.map_values(|x: TxInModel| reread_input(x))
                =~= xs.map_values(|x: TxInModel| reread_input(x)));
            assert((xs.len() - 1) as nat == rest.len());
        }
    }
}

proof fn lemma_read_output(s: Seq<u8>, p: int, o: TxOutModel)
    requires
        agrees(s, p, output_bytes(o)),
        o.script_pubkey.len() <= u64::MAX,
    ensures
        p + output_bytes(o).len() <= s.len() ==> output_at(s, p) == Some(
            (reread_output(o), p + output_bytes(o).len()),
        ),
        p + output_bytes(o).len() > s.len() ==> output_at(s, p) is None,
{
    let v = u64_le_bytes(o.value);
    let n = varint_bytes(o.script_pubkey.len() as u64);
    let g = o.script_pubkey;
    lemma_agrees_split(s, p, v + n, g);
    lemma_agrees_split(s, p, v, n);
    lemma_read_u64(s, p, o.value);
    if p + 8 <= s.len() {
        let p1 = p + 8;
        lemma_read_varint(s, p1, o.script_pubkey.len() as u64);
        if p1 + n.len() <= s.len() {
            lemma_read_bytes(s, p1 + n.len(), g);
        }
    }
}

proof fn lemma_read_outputs(s: Seq<u8>, p: int, os: Seq<TxOutModel>)
    requires
        agrees(s, p, outputs_bytes(os)),
        forall|i: int| 0 <= i < os.len() ==> (#[trigger] os[i]).script_pubkey.len() <= u64::MAX,
    ensures
        p + outputs_bytes(os).len() <= s.len() ==> outputs_at(s, p, os.len()) == Some(
            (os.map_values(|o: TxOutModel| reread_output(o)), p + outputs_bytes(os).len()),
        ),
        p + outputs_bytes(os).len() > s.len() ==> outputs_at(s, p, os.len()) is None,
    decreases os.len(),
{
    if os.len() == 0 {
        assert(os.map_values(|o: TxOutModel| reread_output(o)) =~= Seq::<TxOutModel>::empty());
    } else {
        let first = output_bytes(os[0]);
        let rest = os.drop_first();
        lemma_agrees_split(s, p, first, outputs_bytes(rest));
        lemma_read_output(s, p, os[0]);
        if p + first.len() <= s.len() {
            assert forall|i: int| 0 <= i < rest.len() implies (
            #[trigger] rest[i]).script_pubkey.len() <= u64::MAX by {
                assert(rest[i] == os[i + 1]);
            }
            lemma_read_outputs(s, p + first.len(), rest);
            assert(seq![reread_output(os[0])] + rest.map_values(|o: TxOutModel| reread_output(o))
                =~= os.map_values(|o: TxOutModel| reread_output(o)));
            assert((os.len() - 1) as nat == rest.len());
        }
    }
}

/// Parsing bytes that agree with the encoding of `t` as far as they reach
/// gives `reread(t)` when they hold all of it, and fails when they stop short.
proof fn lemma_parse_agreeing(s: Seq<u8>, t: TransactionModel)
    requires
        well_formed(t),
        agrees(s, 0, serialize_spec(t)),
    ensures
        serialize_spec(t).len() <= s.len() ==> parse_at(s) == Some(
            (reread(t), serialize_spec(t).len() as int),
        ),
        serialize_spec(t).len() > s.len() ==> parse_at(s) is None,
{
    let a = u32_le_bytes(t.version);
    let b = varint_bytes(t.inputs.len() as u64);
    let c = inputs_bytes(t.inputs);
    let d = varint_bytes(t.outputs.len() as u64);
    let e = outputs_bytes(t.outputs);
    let f = u32_le_bytes(t.lock_time);
    lemma_agrees_split(s, 0, a + b + c + d + e, f);
    lemma_agrees_split(s, 0, a + b + c + d, e);
    lemma_agrees_split(s, 0, a + b + c, d);
    lemma_agrees_split(s, 0, a + b, c);
    lemma_agrees_split(s, 0, a, b);
    lemma_read_u32(s, 0, t.version);
    if 4 <= s.len() {
        lemma_read_varint(s, 4, t.inputs.len() as u64);
        let p2: int = 4int + b.len();
        if p2 <= s.len() {
            assert(t.inputs.len() as u64 != 0);
            lemma_read_inputs(s, p2, t.inputs);
            assert((t.inputs.len() as u64) as nat == t.inputs.len());
            let p3: int = p2 + c.len();
            if p3 <= s.len() {
                lemma_read_varint(s, p3, t.outputs.len() as u64);
                let p4: int = p3 + d.len();
                if p4 <= s.len() {
                    assert(t.outputs.len() as u64 != 0);
                    lemma_read_outputs(s, p4, t.outputs);
                    assert((t.outputs.len() as u64) as nat == t.outputs.len());
                    let p5: int = p4 + e.len();
                    if p5 <= s.len() {
                        lemma_read_u32(s, p5, t.lock_time);
                    }
                }
            }
        }
    }
}

/// Parsing the encoding of a well-formed transaction gives it back, with each
/// fixed-width integer read in the opposite byte order to the one it was
/// written in.
pub proof fn lemma_parse_serialized(t: TransactionModel)
    requires
        well_formed(t),
    ensures
        parse_spec(serialize_spec(t)) == Some(reread(t)),
{
    lemma_parse_agreeing(serialize_spec(t), t);
}

/// Round trip: a well-formed transaction whose fixed-width integers read the
/// same in both byte orders parses back from its encoding field for field,
/// and encoding the parsed transaction gives the same bytes.
pub proof fn lemma_round_trip(t: TransactionModel)
    requires
        well_formed(t),
        fixed_fields_read_back(t),
    ensures
        parse_spec(serialize_spec(t)) == Some(t),
        serialize_spec(parse_spec(serialize_spec(t))->0) == serialize_spec(t),
{
    lemma_parse_serialized(t);
    assert(reread(t).inputs =~= t.inputs);
    assert(reread(t).outputs =~= t.outputs);
}

/// Truncation: every proper prefix of the encoding of a well-formed
/// transaction fails to parse.
pub proof fn lemma_truncation_fails(t: TransactionModel, k: int)
    requires
        well_formed(t),
        0 <= k < serialize_spec(t).len(),
    ensures
        parse_spec(serialize_spec(t).take(k)) is None,
{
    lemma_parse_agreeing(serialize_spec(t).take(k), t);
}


proof fn lemma_inputs_count(s: Seq<u8>, p: int, n: nat)
    ensures
        inputs_at(s, p, n) matches Some((xs, _)) ==> xs.len() == n,
    decreases n,
{
    if n > 0 {
        if let Some((x, q)) = input_at(s, p) {
            lemma_inputs_count(s, q, (n - 1) as nat);
        }
    }
}

proof fn lemma_outputs_count(s: Seq<u8>, p: int, n: nat)
    ensures
        outputs_at(s, p, n) matches Some((os, _)) ==> os.len() == n,
    decreases n,
{
    if n > 0 {
        if let Some((o, q)) = output_at(s, p) {
            lemma_outputs_count(s, q, (n - 1) as nat);
        }
    }
}

/// A declared input or output count of zero makes the parse fail: bytes whose
/// input count (right after the four version bytes) is zero never parse, and
/// whatever parses has at least one input and one output.
pub proof fn lemma_zero_counts_rejected(s: Seq<u8>)
    ensures
        s.len() >= 5 && s[4] == 0 ==> parse_spec(s) is None,
        parse_spec(s) matches Some(t) ==> t.inputs.len() >= 1 && t.outputs.len() >= 1,
{
    if let Some((version, p1)) = read_int(s, 0, TokenType::Unsigned32) {
        if let Some((n_in, p2)) = read_int(s, p1, TokenType::VarInt) {
            lemma_inputs_count(s, p2, n_in as nat);
            if let Some((ins, p3)) = inputs_at(s, p2, n_in as nat) {
                if let Some((n_out, p4)) = read_int(s, p3, TokenType::VarInt) {
                    lemma_outputs_count(s, p4, n_out as nat);
                }
            }
        }
    }
}

} // verus!
