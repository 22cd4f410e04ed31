use coinjoin::hash::Hashable;
use coinjoin::merge::{
    merge_signed_transactions, merge_unsigned_ordered, merge_unsigned_transactions,
    MergeError, MismatchedField,
};
use coinjoin::transaction::{Transaction, TxIn, TxOut};

fn input(tag: u8, index: u32, sig: &[u8]) -> TxIn {
    TxIn { prev_hash: vec![tag; 32], prev_index: index, script_sig: sig.to_vec(), sequence: 0xffff_ffff }
}

fn output(value: u64, script: &[u8]) -> TxOut {
    TxOut { value, script_pubkey: script.to_vec() }
}

fn skeleton(sig0: &[u8], sig1: &[u8]) -> Transaction {
    Transaction {
        version: 1,
        lock_time: 0,
        inputs: vec![input(0xaa, 0, sig0), input(0xbb, 1, sig1)],
        outputs: vec![output(5000, &[0x76, 0xa9]), output(7000, &[0x51])],
    }
}

#[test]
fn signed_merge_of_copies_is_unchanged() {
    let tx = skeleton(&[1, 1], &[2, 2]);
    let merged = merge_signed_transactions(&[tx.clone(), tx.clone(), tx.clone()]).unwrap();
    assert_eq!(merged, tx);
    assert_eq!(merged.to_hash(), tx.to_hash());
}

#[test]
fn signed_merge_takes_signatures_from_both() {
    let a = skeleton(&[], &[9, 9, 9]);
    let b = skeleton(&[4, 4], &[]);
    let merged = merge_signed_transactions(&[a, b]).unwrap();
    assert_eq!(merged.inputs[0].script_sig, vec![4, 4]);
    assert_eq!(merged.inputs[1].script_sig, vec![9, 9, 9]);
    assert_eq!(merged, skeleton(&[4, 4], &[9, 9, 9]));
}

#[test]
fn signed_merge_later_signature_wins() {
    let a = skeleton(&[1], &[]);
    let b = skeleton(&[2], &[]);
    let merged = merge_signed_transactions(&[a, b]).unwrap();
    assert_eq!(merged.inputs[0].script_sig, vec![2]);
}

#[test]
fn signed_merge_output_mismatch() {
    let a = skeleton(&[], &[]);
    let mut b = skeleton(&[], &[]);
    b.outputs[1].value = 7001;
    assert_eq!(
        merge_signed_transactions(&[a, b]),
        Err(MergeError::OutputMismatch { index: 1, position: 1 })
    );
}

#[test]
fn signed_merge_input_mismatch() {
    let a = skeleton(&[], &[]);
    let mut b = skeleton(&[], &[]);
    b.inputs[1].prev_index = 5;
    assert_eq!(
        merge_signed_transactions(&[a, b]),
        Err(MergeError::InputMismatch { index: 1, position: 1 })
    );
}

#[test]
fn signed_merge_field_mismatch() {
    let a = skeleton(&[], &[]);
    let mut b = skeleton(&[], &[]);
    b.lock_time = 77;
    assert_eq!(
        merge_signed_transactions(&[a, b]),
        Err(MergeError::FieldMismatch {
            field: MismatchedField::LockTime,
            expected: 0,
            actual: 77,
            index: 1
        })
    );
    let a = skeleton(&[], &[]);
    let mut c = skeleton(&[], &[]);
    c.version = 2;
    assert_eq!(
        merge_signed_transactions(&[a, c]),
        Err(MergeError::FieldMismatch {
            field: MismatchedField::Version,
            expected: 1,
            actual: 2,
            index: 1
        })
    );
}

#[test]
fn merges_of_nothing_fail() {
    assert_eq!(merge_signed_transactions(&[]), Err(MergeError::EmptyInput));
    assert_eq!(merge_unsigned_transactions(&[]), Err(MergeError::EmptyInput));
}

fn party(tag: u8, values: &[u64]) -> Transaction {
    Transaction {
        version: 1,
        lock_time: 0,
        inputs: vec![input(tag, 0, &[tag, tag]), input(tag, 1, &[tag])],
        outputs: values.iter().map(|v| output(*v, &[tag])).collect(),
    }
}

fn sorted_inputs(t: &Transaction) -> Vec<(Vec<u8>, u32, Vec<u8>, u32)> {
    let mut v: Vec<_> = t
        .inputs
        .iter()
        .map(|x| (x.prev_hash.clone(), x.prev_index, x.script_sig.clone(), x.sequence))
        .collect();
    v.sort();
    v
}

fn sorted_outputs(t: &Transaction) -> Vec<(u64, Vec<u8>)> {
    let mut v: Vec<_> = t.outputs.iter().map(|o| (o.value, o.script_pubkey.clone())).collect();
    v.sort();
    v
}

#[test]
fn unsigned_merge_in_order() {
    let a = party(1, &[100, 30]);
    let b = party(2, &[100]);
    let merged = merge_unsigned_ordered(&[a, b]).unwrap();
    assert_eq!(
        merged.inputs,
        vec![input(1, 0, &[]), input(1, 1, &[]), input(2, 0, &[]), input(2, 1, &[])]
    );
    assert_eq!(merged.outputs, vec![output(100, &[1]), output(30, &[1]), output(100, &[2])]);
}

#[test]
fn unsigned_merge_union_and_shuffle() {
    let a = party(1, &[100, 30, 31, 32]);
    let b = party(2, &[100, 40, 41, 42]);
    let ordered = merge_unsigned_ordered(&[a.clone(), b.clone()]).unwrap();
    let mut orders = Vec::new();
    for _ in 0..20 {
        let merged = merge_unsigned_transactions(&[a.clone(), b.clone()]).unwrap();
        assert_eq!(merged.version, 1);
        assert_eq!(merged.lock_time, 0);
        assert_eq!(sorted_inputs(&merged), sorted_inputs(&ordered));
        assert_eq!(sorted_outputs(&merged), sorted_outputs(&ordered));
        assert!(merged.inputs.iter().all(|x| x.script_sig.is_empty()));
        orders.push(merged.serialize());
    }
    assert!(orders.iter().any(|o| *o != orders[0]));
}

#[test]
fn unsigned_merge_keeps_duplicate_outputs() {
    let a = party(1, &[100]);
    let b = party(2, &[100]);
    let merged = merge_unsigned_transactions(&[a, b]).unwrap();
    assert_eq!(merged.outputs.len(), 2);
    assert_eq!(merged.most_popular_output(), 100);
}

#[test]
fn unsigned_merge_duplicate_input() {
    let a = party(1, &[100]);
    let mut b = party(2, &[100]);
    b.inputs[1] = input(1, 1, &[5]);
    assert_eq!(
        merge_unsigned_transactions(&[a, b]),
        Err(MergeError::DuplicateInput { index: 1, position: 1 })
    );
}

#[test]
fn unsigned_merge_duplicate_within_one() {
    let mut a = party(1, &[100]);
    a.inputs[1] = input(1, 0, &[]);
    assert_eq!(
        merge_unsigned_transactions(&[a]),
        Err(MergeError::DuplicateInput { index: 0, position: 1 })
    );
}

#[test]
fn unsigned_merge_field_mismatch() {
    let a = party(1, &[100]);
    let mut b = party(2, &[100]);
    b.version = 3;
    assert_eq!(
        merge_unsigned_transactions(&[a, b]),
        Err(MergeError::FieldMismatch {
            field: MismatchedField::Version,
            expected: 1,
            actual: 3,
            index: 1
        })
    );
}
