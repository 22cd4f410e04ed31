use vstd::prelude::*;

use crate::transaction::{
    copy_bytes, Transaction, TransactionModel, TxIn, TxInModel, TxOut, TxOutModel,
};

verus! {

/// The header field on which two transactions disagree.
#[derive(Clone, Copy, Debug, PartialEq, Eq, Structural)]
pub enum MismatchedField {
    Version,
    LockTime,
}

/// Why a merge produced no transaction. `index` is the position, in the list
/// handed to the merge, of the transaction that could not be merged;
/// `position` the input or output within it.
#[derive(Clone, Copy, Debug, PartialEq, Eq, Structural)]
pub enum MergeError {
    /// The list of transactions was empty.
    EmptyInput,
    /// A version or lock time differs from the first transaction's.
    FieldMismatch { field: MismatchedField, expected: u32, actual: u32, index: usize },
    /// An output differs from the one at the same place in the accumulated transaction.
    OutputMismatch { index: usize, position: usize },
    /// An input refers elsewhere than the one at the same place in the accumulated transaction.
    InputMismatch { index: usize, position: usize },
    /// An input refers to the same earlier output as an input already gathered.
    DuplicateInput { index: usize, position: usize },
}

/// Two inputs spend the same earlier output with the same sequence number;
/// their signatures do not count.
pub open spec fn inputs_match(a: TxInModel, b: TxInModel) -> bool {
    a.prev_hash == b.prev_hash && a.prev_index == b.prev_index && a.sequence == b.sequence
}

pub open spec fn result_model(r: Result<Transaction, MergeError>) -> Result<
    TransactionModel,
    MergeError,
> {
    match r {
        Ok(t) => Ok(t@),
        Err(e) => Err(e),
    }
}

pub open spec fn models(txs: Seq<Transaction>) -> Seq<TransactionModel> {
    txs.map_values(|t: Transaction| t@)
}

// ---------------------------------------------------------------- signed merge

/// The first place, from `k` on, where the two output lists (compared as far
/// as both reach) differ.
pub open spec fn first_output_mismatch(m: Seq<TxOutModel>, t: Seq<TxOutModel>, k: int) -> Option<
    int,
>
    decreases m.len() - k,
{
    if k < 0 || k >= m.len() || k >= t.len() {
        None
    } else if m[k] != t[k] {
        Some(k)
    } else {
        first_output_mismatch(m, t, k + 1)
    }
}

/// The first place, from `k` on, where the two input lists (compared as far as
/// both reach) refer to different earlier outputs.
pub open spec fn first_input_mismatch(m: Seq<TxInModel>, t: Seq<TxInModel>, k: int) -> Option<
    int,
>
    decreases m.len() - k,
{
    if k < 0 || k >= m.len() || k >= t.len() {
        None
    } else if !inputs_match(m[k], t[k]) {
        Some(k)
    } else {
        first_input_mismatch(m, t, k + 1)
    }
}

/// `m`'s inputs, each taking the signature of `t`'s input at the same place
/// where that one is not empty.
pub open spec fn take_signatures(m: Seq<TxInModel>, t: Seq<TxInModel>) -> Seq<TxInModel> {
    Seq::new(
        m.len(),
        |k: int|
            if k < t.len() && t[k].script_sig.len() > 0 {
                TxInModel {
                    prev_hash: m[k].prev_hash,
                    prev_index: m[k].prev_index,
                    script_sig: t[k].script_sig,
                    sequence: m[k].sequence,
                }
            } else {
                m[k]
            },
    )
}

/// Checks the transaction at `index`, `t`, against the accumulated one, `m`,
/// and takes its signatures.
pub open spec fn signed_step(m: TransactionModel, t: TransactionModel, index: int) -> Result<
    TransactionModel,
    MergeError,
> {
    if t.version != m.version {
        Err(
            MergeError::FieldMismatch {
                field: MismatchedField::Version,
                expected: m.version,
                actual: t.version,
                index: index as usize,
            },
        )
    } else if t.lock_time != m.lock_time {
        Err(
            MergeError::FieldMismatch {
                field: MismatchedField::LockTime,
                expected: m.lock_time,
                actual: t.lock_time,
                index: index as usize,
            },
        )
    } else {
        match first_output_mismatch(m.outputs, t.outputs, 0) {
            Some(p) => Err(MergeError::OutputMismatch { index: index as usize, position: p as usize }),
            None => match first_input_mismatch(m.inputs, t.inputs, 0) {
                Some(p) => Err(
                    MergeError::InputMismatch { index: index as usize, position: p as usize },
                ),
                None => Ok(
                    TransactionModel {
                        version: m.version,
                        lock_time: m.lock_time,
                        inputs: take_signatures(m.inputs, t.inputs),
                        outputs: m.outputs,
                    },
                ),
            },
        }
    }
}

/// The signed merge of the first `n` transactions, starting from the first one.
pub open spec fn signed_merge_upto(txs: Seq<TransactionModel>, n: nat) -> Result<
    TransactionModel,
    MergeError,
>
    decreases n,
{
    if n == 0 {
        Ok(txs[0])
    } else {
        match signed_merge_upto(txs, (n - 1) as nat) {
            Ok(m) => signed_step(m, txs[n - 1], n - 1),
            Err(e) => Err(e),
        }
    }
}

pub open spec fn signed_merge_spec(txs: Seq<TransactionModel>) -> Result<
    TransactionModel,
    MergeError,
> {
    if txs.len() == 0 {
        Err(MergeError::EmptyInput)
    } else {
        signed_merge_upto(txs, txs.len())
    }
}

/// Once the signed merge has failed, it stays failed with the same error.
proof fn lemma_signed_failure_sticks(txs: Seq<TransactionModel>, n: nat, m: nat)
    requires
        n <= m,
        signed_merge_upto(txs, n) is Err,
    ensures
        signed_merge_upto(txs, m) == signed_merge_upto(txs, n),
    decreases m - n,
{
    if m > n {
        lemma_signed_failure_sticks(txs, n, (m - 1) as nat);
    }
}

fn same_bytes(a: &Vec<u8>, b: &Vec<u8>) -> (r: bool)
    ensures
        r == (a@ == b@),
{
    if a.len() != b.len() {
        return false;
    }
    let mut i: usize = 0;
    while i < a.len()
        invariant
            a@.len() == b@.len(),
            i <= a@.len(),
            forall|j: int| 0 <= j < i ==> a@[j] == b@[j],
        decreases a@.len() - i,
    {
        if a[i] != b[i] {
            return false;
        }
        i = i + 1;
    }
    assert(a@ =~= b@);
    true
}

fn match_input(in1: &TxIn, in2: &TxIn) -> (r: bool)
    ensures
        r == inputs_match(in1@, in2@),
{
    same_bytes(&in1.prev_hash, &in2.prev_hash) && in1.prev_index == in2.prev_index
        && in1.sequence == in2.sequence
}

fn match_output(in1: &TxOut, in2: &TxOut) -> (r: bool)
    ensures
        r == (in1@ == in2@),
{
    in1.value == in2.value && same_bytes(&in1.script_pubkey, &in2.script_pubkey)
}

/// Combines transactions that are the same but for their signatures. The
/// first one is the starting point; each transaction in turn must have its
/// version and lock time, the same outputs and inputs that refer to the same
/// earlier outputs (compared place by place, as far as both lists reach), and
/// every non-empty signature it carries replaces the one at that place.
pub fn merge_signed_transactions(txlist: &[Transaction]) -> (r: Result<Transaction, MergeError>)
    ensures
        result_model(r) == signed_merge_spec(models(txlist@)),
{
    let ghost txs = models(txlist@);
    if txlist.len() == 0 {
        return Err(MergeError::EmptyInput);
    }
    let mut master = txlist[0].clone();
    let mut i: usize = 0;
    while i < txlist.len()
        invariant
            txs == models(txlist@),
            txs.len() == txlist@.len(),
            i <= txlist@.len(),
            signed_merge_upto(txs, i as nat) == Ok::<TransactionModel, MergeError>(master@),
        decreases txlist@.len() - i,
    {
        let tx = &txlist[i];
        let ghost m0 = master@;
        let ghost t = tx@;
        assert(t == txs[i as int]);
        if tx.version != master.version {
            proof {
                lemma_signed_failure_sticks(txs, (i + 1) as nat, txs.len());
            }
            return Err(
                MergeError::FieldMismatch {
                    field: MismatchedField::Version,
                    expected: master.version,
                    actual: tx.version,
                    index: i,
                },
            );
        }
        if tx.lock_time != master.lock_time {
            proof {
                lemma_signed_failure_sticks(txs, (i + 1) as nat, txs.len());
            }
            return Err(
                MergeError::FieldMismatch {
                    field: MismatchedField::LockTime,
                    expected: master.lock_time,
                    actual: tx.lock_time,
                    index: i,
                },
            );
        }
        let n_out = if tx.outputs.len() < master.outputs.len() {
            tx.outputs.len()
        } else {
            master.outputs.len()
        };
        let mut k: usize = 0;
        while k < n_out
            invariant
                txs == models(txlist@),
                txs.len() == txlist@.len(),
                i < txlist@.len(),
                t == txs[i as int],
                signed_merge_upto(txs, i as nat) == Ok::<TransactionModel, MergeError>(m0),
                t.version == m0.version,
                t.lock_time == m0.lock_time,
                m0 == master@,
                t == tx@,
                n_out <= m0.outputs.len(),
                n_out <= t.outputs.len(),
                n_out == m0.outputs.len() || n_out == t.outputs.len(),
                k <= n_out,
                first_output_mismatch(m0.outputs, t.outputs, 0) == first_output_mismatch(
                    m0.outputs,
                    t.outputs,
                    k as int,
                ),
            decreases n_out - k,
        {
            if !match_output(&tx.outputs[k], &master.outputs[k]) {
                assert(t.outputs[k as int] != m0.outputs[k as int]);
                proof {
                    lemma_signed_failure_sticks(txs, (i + 1) as nat, txs.len());
                }
                return Err(MergeError::OutputMismatch { index: i, position: k });
            }
            k = k + 1;
        }
        assert(first_output_mismatch(m0.outputs, t.outputs, 0) is None);
        let n_in = if tx.inputs.len() < master.inputs.len() {
            tx.inputs.len()
        } else {
            master.inputs.len()
        };
        let mut k: usize = 0;
        while k < n_in
            invariant
                txs == models(txlist@),
                txs.len() == txlist@.len(),
                i < txlist@.len(),
                t == txs[i as int],
                signed_merge_upto(txs, i as nat) == Ok::<TransactionModel, MergeError>(m0),
                t.version == m0.version,
                t.lock_time == m0.lock_time,
                first_output_mismatch(m0.outputs, t.outputs, 0) is None,
                t == tx@,
                master@.version == m0.version,
                master@.lock_time == m0.lock_time,
                master@.outputs == m0.outputs,
                master@.inputs.len() == m0.inputs.len(),
                n_in <= m0.inputs.len(),
                n_in <= t.inputs.len(),
                n_in == m0.inputs.len() || n_in == t.inputs.len(),
                k <= n_in,
                first_input_mismatch(m0.inputs, t.inputs, 0) == first_input_mismatch(
                    m0.inputs,
                    t.inputs,
                    k as int,
                ),
                forall|q: int|
                    0 <= q < k ==> #[trigger] master@.inputs[q] == take_signatures(
                        m0.inputs,
                        t.inputs,
                    )[q],
                forall|q: int| k <= q < m0.inputs.len() ==> #[trigger] master@.inputs[q] == m0.inputs[q],
            decreases n_in - k,
        {
            assert(master@.inputs[k as int] == m0.inputs[k as int]);
            assert(master.inputs@[k as int]@ == master@.inputs[k as int]);
            assert(tx.inputs@[k as int]@ == t.inputs[k as int]);
            if match_input(&tx.inputs[k], &master.inputs[k]) {
                if tx.inputs[k].script_sig.len() > 0 {
                    let cur = &master.inputs[k];
                    let signed = TxIn {
                        prev_hash: copy_bytes(&cur.prev_hash),
                        prev_index: cur.prev_index,
                        script_sig: copy_bytes(&tx.inputs[k].script_sig),
                        sequence: cur.sequence,
                    };
                    let ghost before = master@.inputs;
                    master.inputs.set(k, signed);
                    assert(master@.inputs =~= before.update(k as int, signed@));
                }
            } else {
                proof {
                    lemma_signed_failure_sticks(txs, (i + 1) as nat, txs.len());
                }
                return Err(MergeError::InputMismatch { index: i, position: k });
            }
            k = k + 1;
        }
        assert(master@.inputs =~= take_signatures(m0.inputs, t.inputs));
        i = i + 1;
    }
    assert(txs.len() == txlist@.len());
    Ok(master)
}


// ---------------------------------------------------------------- unsigned merge

/// An input with its signature removed.
pub open spec fn strip(x: TxInModel) -> TxInModel {
    TxInModel {
        prev_hash: x.prev_hash,
        prev_index: x.prev_index,
        script_sig: Seq::empty(),
        sequence: x.sequence,
    }
}

pub open spec fn stripped(s: Seq<TxInModel>) -> Seq<TxInModel> {
    s.map_values(|x: TxInModel| strip(x))
}

/// Some input of `s` refers to the same earlier output as `x`.
pub open spec fn has_match(s: Seq<TxInModel>, x: TxInModel) -> bool {
    exists|j: int| 0 <= j < s.len() && inputs_match(#[trigger] s[j], x)
}

/// The first input of `t`, from `k` on, that repeats one of `acc` or one of
/// `t` before it.
pub open spec fn first_duplicate(acc: Seq<TxInModel>, t: Seq<TxInModel>, k: int) -> Option<int>
    decreases t.len() - k,
{
    if k < 0 || k >= t.len() {
        None
    } else if has_match(acc + stripped(t.take(k)), t[k]) {
        Some(k)
    } else {
        first_duplicate(acc, t, k + 1)
    }
}

/// Adds the transaction at `index`, `t`, to the accumulated one, `m`.
pub open spec fn unsigned_step(m: TransactionModel, t: TransactionModel, index: int) -> Result<
    TransactionModel,
    MergeError,
> {
    if t.version != m.version {
        Err(
            MergeError::FieldMismatch {
                field: MismatchedField::Version,
                expected: m.version,
                actual: t.version,
                index: index as usize,
            },
        )
    } else if t.lock_time != m.lock_time {
        Err(
            MergeError::FieldMismatch {
                field: MismatchedField::LockTime,
                expected: m.lock_time,
                actual: t.lock_time,
                index: index as usize,
            },
        )
    } else {
        match first_duplicate(m.inputs, t.inputs, 0) {
            Some(p) => Err(MergeError::DuplicateInput { index: index as usize, position: p as usize }),
            None => Ok(
                TransactionModel {
                    version: m.version,
                    lock_time: m.lock_time,
                    inputs: m.inputs + stripped(t.inputs),
                    outputs: m.outputs + t.outputs,
                },
            ),
        }
    }
}

/// The unsigned merge, in order, of the first `n` transactions.
pub open spec fn unsigned_merge_upto(txs: Seq<TransactionModel>, n: nat) -> Result<
    TransactionModel,
    MergeError,
>
    decreases n,
{
    if n == 0 {
        Ok(
            TransactionModel {
                version: txs[0].version,
                lock_time: txs[0].lock_time,
                inputs: Seq::empty(),
                outputs: Seq::empty(),
            },
        )
    } else {
        match unsigned_merge_upto(txs, (n - 1) as nat) {
            Ok(m) => unsigned_step(m, txs[n - 1], n - 1),
            Err(e) => Err(e),
        }
    }
}

pub open spec fn unsigned_merge_spec(txs: Seq<TransactionModel>) -> Result<
    TransactionModel,
    MergeError,
> {
    if txs.len() == 0 {
        Err(MergeError::EmptyInput)
    } else {
        unsigned_merge_upto(txs, txs.len())
    }
}

/// `a` holds the same inputs and outputs as `b`, in any order, and the same header.
pub open spec fn same_up_to_order(a: TransactionModel, b: TransactionModel) -> bool {
    &&& a.version == b.version
    &&& a.lock_time == b.lock_time
    &&& a.inputs.to_multiset() == b.inputs.to_multiset()
    &&& a.outputs.to_multiset() == b.outputs.to_multiset()
}

/// Once the unsigned merge has failed, it stays failed with the same error.
proof fn lemma_unsigned_failure_sticks(txs: Seq<TransactionModel>, n: nat, m: nat)
    requires
        n <= m,
        unsigned_merge_upto(txs, n) is Err,
    ensures
        unsigned_merge_upto(txs, m) == unsigned_merge_upto(txs, n),
    decreases m - n,
{
    if m > n {
        lemma_unsigned_failure_sticks(txs, n, (m - 1) as nat);
    }
}

/// Relies on `rand::seq::SliceRandom::shuffle`, driven by `rand::thread_rng`:
/// it only swaps elements, so what comes back is a rearrangement of what went in.
#[verifier::external_body]
fn shuffle<T: View>(v: &mut Vec<T>)
    ensures
        final(v)@.map_values(|x: T| x@).to_multiset() == old(v)@.map_values(
            |x: T| x@,
        ).to_multiset(),
{
    rand::seq::SliceRandom::shuffle(v.as_mut_slice(), &mut rand::thread_rng());
}

/// Gathers the inputs and outputs of all the transactions into one, in the
/// order given: outputs as they are, inputs without their signatures. Every
/// transaction must have the first one's version and lock time, and no input
/// may refer to the same earlier output (with the same sequence number) as an
/// input gathered before it.
pub fn merge_unsigned_ordered(txlist: &[Transaction]) -> (r: Result<Transaction, MergeError>)
    ensures
        result_model(r) == unsigned_merge_spec(models(txlist@)),
{
    let ghost txs = models(txlist@);
    if txlist.len() == 0 {
        return Err(MergeError::EmptyInput);
    }
    let mut master = Transaction {
        version: txlist[0].version,
        lock_time: txlist[0].lock_time,
        inputs: Vec::new(),
        outputs: Vec::new(),
    };
    assert(master@.inputs =~= Seq::<TxInModel>::empty());
    assert(master@.outputs =~= Seq::<TxOutModel>::empty());
    let mut i: usize = 0;
    while i < txlist.len()
        invariant
            txs == models(txlist@),
            txs.len() == txlist@.len(),
            i <= txlist@.len(),
            unsigned_merge_upto(txs, i as nat) == Ok::<TransactionModel, MergeError>(master@),
        decreases txlist@.len() - i,
    {
        let tx = &txlist[i];
        let ghost m0 = master@;
        let ghost t = tx@;
        assert(t == txs[i as int]);
        if tx.version != master.version {
            proof {
                lemma_unsigned_failure_sticks(txs, (i + 1) as nat, txs.len());
            }
            return Err(
                MergeError::FieldMismatch {
                    field: MismatchedField::Version,
                    expected: master.version,
                    actual: tx.version,
                    index: i,
                },
            );
        }
        if tx.lock_time != master.lock_time {
            proof {
                lemma_unsigned_failure_sticks(txs, (i + 1) as nat, txs.len());
            }
            return Err(
                MergeError::FieldMismatch {
                    field: MismatchedField::LockTime,
                    expected: master.lock_time,
                    actual: tx.lock_time,
                    index: i,
                },
            );
        }
        let mut k: usize = 0;
        while k < tx.outputs.len()
            invariant
                t == tx@,
                master@.version == m0.version,
                master@.lock_time == m0.lock_time,
                master@.inputs == m0.inputs,
                k <= t.outputs.len(),
                master@.outputs == m0.outputs + t.outputs.take(k as int),
            decreases t.outputs.len() - k,
        {
            let ghost before = master@.outputs;
            let o = tx.outputs[k].clone();
            master.outputs.push(o);
            assert(master@.outputs =~= before.push(o@));
            assert(m0.outputs + t.outputs.take(k + 1) =~= (m0.outputs + t.outputs.take(
                k as int,
            )).push(t.outputs[k as int]));
            k = k + 1;
        }
        assert(t.outputs.take(k as int) =~= t.outputs);
        let mut k: usize = 0;
        while k < tx.inputs.len()
            invariant
                txs == models(txlist@),
                txs.len() == txlist@.len(),
                i < txlist@.len(),
                t == txs[i as int],
                unsigned_merge_upto(txs, i as nat) == Ok::<TransactionModel, MergeError>(m0),
                t.version == m0.version,
                t.lock_time == m0.lock_time,
                t == tx@,
                master@.version == m0.version,
                master@.lock_time == m0.lock_time,
                master@.outputs == m0.outputs + t.outputs,
                k <= t.inputs.len(),
                master@.inputs == m0.inputs + stripped(t.inputs.take(k as int)),
                first_duplicate(m0.inputs, t.inputs, 0) == first_duplicate(
                    m0.inputs,
                    t.inputs,
                    k as int,
                ),
            decreases t.inputs.len() - k,
        {
            let candidate = &tx.inputs[k];
            assert(candidate@ == t.inputs[k as int]);
            let mut j: usize = 0;
            while j < master.inputs.len()
                invariant
                    txs == models(txlist@),
                    txs.len() == txlist@.len(),
                    i < txlist@.len(),
                    t == txs[i as int],
                    unsigned_merge_upto(txs, i as nat) == Ok::<TransactionModel, MergeError>(m0),
                    t.version == m0.version,
                    t.lock_time == m0.lock_time,
                    t == tx@,
                    k < t.inputs.len(),
                    candidate@ == t.inputs[k as int],
                    master@.inputs == m0.inputs + stripped(t.inputs.take(k as int)),
                    first_duplicate(m0.inputs, t.inputs, 0) == first_duplicate(
                        m0.inputs,
                        t.inputs,
                        k as int,
                    ),
                    j <= master@.inputs.len(),
                    forall|q: int|
                        0 <= q < j ==> !inputs_match(#[trigger] master@.inputs[q], candidate@),
                decreases master@.inputs.len() - j,
            {
                assert(master.inputs@[j as int]@ == master@.inputs[j as int]);
                if match_input(&master.inputs[j], candidate) {
                    assert(has_match(master@.inputs, t.inputs[k as int]));
                    proof {
                        lemma_unsigned_failure_sticks(txs, (i + 1) as nat, txs.len());
                    }
                    return Err(MergeError::DuplicateInput { index: i, position: k });
                }
                j = j + 1;
            }
            assert(!has_match(master@.inputs, t.inputs[k as int]));
            let fresh = TxIn {
                prev_hash: copy_bytes(&candidate.prev_hash),
                prev_index: candidate.prev_index,
                script_sig: Vec::new(),
                sequence: candidate.sequence,
            };
            assert(fresh@ == strip(t.inputs[k as int])) by {
                assert(fresh@.script_sig =~= Seq::<u8>::empty());
            }
            let ghost before = master@.inputs;
            master.inputs.push(fresh);
            assert(master@.inputs =~= before.push(fresh@));
            assert(stripped(t.inputs.take(k + 1)) =~= stripped(t.inputs.take(k as int)).push(
                strip(t.inputs[k as int]),
            ));
            assert(m0.inputs + stripped(t.inputs.take(k + 1)) =~= before.push(fresh@));
            k = k + 1;
        }
        assert(t.inputs.take(k as int) =~= t.inputs);
        i = i + 1;
    }
    Ok(master)
}

/// Gathers the inputs and outputs of all the transactions into one, as
/// `merge_unsigned_ordered` does, then puts the inputs and the outputs each
/// in a random order, so that the order tells nothing of who brought what.
pub fn merge_unsigned_transactions(txlist: &[Transaction]) -> (r: Result<Transaction, MergeError>)
    ensures
        match (r, unsigned_merge_spec(models(txlist@))) {
            (Ok(t), Ok(u)) => same_up_to_order(t@, u),
            (Err(e), s) => s == Err::<TransactionModel, MergeError>(e),
            (Ok(_), Err(_)) => false,
        },
{
    match merge_unsigned_ordered(txlist) {
        Err(e) => Err(e),
        Ok(t) => {
            let ghost u = t@;
            let mut t = t;
            shuffle(&mut t.inputs);
            shuffle(&mut t.outputs);
            assert(t@.inputs =~= t.inputs@.map_values(|x: TxIn| x@));
            Ok(t)
        },
    }
}


// ---------------------------------------------------------------- laws

proof fn lemma_no_output_mismatch(m: Seq<TxOutModel>, t: Seq<TxOutModel>, k: int)
    requires
        0 <= k,
        forall|q: int| k <= q < m.len() && q < t.len() ==> m[q] == t[q],
    ensures
        first_output_mismatch(m, t, k) is None,
    decreases m.len() - k,
{
    if k < m.len() && k < t.len() {
        lemma_no_output_mismatch(m, t, k + 1);
    }
}

proof fn lemma_output_mismatch_at(m: Seq<TxOutModel>, t: Seq<TxOutModel>, k: int, p: int)
    requires
        0 <= k <= p < m.len(),
        p < t.len(),
        m[p] != t[p],
        forall|q: int| k <= q < p ==> m[q] == t[q],
    ensures
        first_output_mismatch(m, t, k) == Some(p),
    decreases p - k,
{
    if k < p {
        lemma_output_mismatch_at(m, t, k + 1, p);
    }
}

proof fn lemma_no_input_mismatch(m: Seq<TxInModel>, t: Seq<TxInModel>, k: int)
    requires
        0 <= k,
        forall|q: int| k <= q < m.len() && q < t.len() ==> inputs_match(m[q], t[q]),
    ensures
        first_input_mismatch(m, t, k) is None,
    decreases m.len() - k,
{
    if k < m.len() && k < t.len() {
        lemma_no_input_mismatch(m, t, k + 1);
    }
}

proof fn lemma_signed_step_same(t: TransactionModel, index: int)
    ensures
        signed_step(t, t, index) == Ok::<TransactionModel, MergeError>(t),
{
    lemma_no_output_mismatch(t.outputs, t.outputs, 0);
    lemma_no_input_mismatch(t.inputs, t.inputs, 0);
    assert(take_signatures(t.inputs, t.inputs) =~= t.inputs);
}

/// Merging any number of copies of one transaction with signatures gives that
/// transaction back unchanged.
pub proof fn lemma_signed_merge_copies(txs: Seq<TransactionModel>, t: TransactionModel)
    requires
        txs.len() >= 1,
        forall|i: int| 0 <= i < txs.len() ==> txs[i] == t,
    ensures
        signed_merge_spec(txs) == Ok::<TransactionModel, MergeError>(t),
{
    lemma_signed_copies_upto(txs, t, txs.len());
}

proof fn lemma_signed_copies_upto(txs: Seq<TransactionModel>, t: TransactionModel, n: nat)
    requires
        1 <= txs.len(),
        n <= txs.len(),
        forall|i: int| 0 <= i < txs.len() ==> txs[i] == t,
    ensures
        signed_merge_upto(txs, n) == Ok::<TransactionModel, MergeError>(t),
    decreases n,
{
    if n > 0 {
        lemma_signed_copies_upto(txs, t, (n - 1) as nat);
        lemma_signed_step_same(t, n - 1);
    }
}

/// Two transactions that differ only in their signatures merge into one whose
/// every input carries the second transaction's signature where that one is
/// not empty, and the first's otherwise.
pub proof fn lemma_signed_merge_union(a: TransactionModel, b: TransactionModel)
    requires
        a.version == b.version,
        a.lock_time == b.lock_time,
        a.outputs == b.outputs,
        a.inputs.len() == b.inputs.len(),
        forall|k: int| 0 <= k < a.inputs.len() ==> inputs_match(#[trigger] a.inputs[k], b.inputs[k]),
    ensures
        signed_merge_spec(seq![a, b]) == Ok::<TransactionModel, MergeError>(
            TransactionModel {
                version: a.version,
                lock_time: a.lock_time,
                inputs: Seq::new(
                    a.inputs.len(),
                    |k: int|
                        if b.inputs[k].script_sig.len() > 0 {
                            b.inputs[k]
                        } else {
                            a.inputs[k]
                        },
                ),
                outputs: a.outputs,
            },
        ),
{
    let txs = seq![a, b];
    assert(txs[0] == a && txs[1] == b);
    lemma_signed_step_same(a, 0);
    assert(signed_merge_upto(txs, 0) == Ok::<TransactionModel, MergeError>(a));
    assert(signed_merge_upto(txs, 1) == Ok::<TransactionModel, MergeError>(a));
    lemma_no_output_mismatch(a.outputs, b.outputs, 0);
    lemma_no_input_mismatch(a.inputs, b.inputs, 0);
    assert(take_signatures(a.inputs, b.inputs) =~= Seq::new(
        a.inputs.len(),
        |k: int|
            if b.inputs[k].script_sig.len() > 0 {
                b.inputs[k]
            } else {
                a.inputs[k]
            },
    ));
}

/// Two transactions that differ only in the value of the output at `p` fail
/// to merge, with an output mismatch at that place of the second one.
pub proof fn lemma_signed_merge_output_mismatch(a: TransactionModel, p: int, v: u64)
    requires
        0 <= p < a.outputs.len(),
        v != a.outputs[p].value,
    ensures
        signed_merge_spec(
            seq![
                a,
                TransactionModel {
                    outputs: a.outputs.update(
                        p,
                        TxOutModel { value: v, script_pubkey: a.outputs[p].script_pubkey },
                    ),
                    ..a
                },
            ],
        ) == Err::<TransactionModel, MergeError>(
            MergeError::OutputMismatch { index: 1, position: p as usize },
        ),
{
    let b = TransactionModel {
        outputs: a.outputs.update(
            p,
            TxOutModel { value: v, script_pubkey: a.outputs[p].script_pubkey },
        ),
        ..a
    };
    let txs = seq![a, b];
    assert(txs[0] == a && txs[1] == b);
    lemma_signed_step_same(a, 0);
    assert(signed_merge_upto(txs, 0) == Ok::<TransactionModel, MergeError>(a));
    assert(signed_merge_upto(txs, 1) == Ok::<TransactionModel, MergeError>(a));
    lemma_output_mismatch_at(a.outputs, b.outputs, 0, p);
}

proof fn lemma_no_duplicate(acc: Seq<TxInModel>, t: Seq<TxInModel>, k: int)
    requires
        0 <= k,
        forall|q: int| k <= q < t.len() ==> !has_match(acc + stripped(t.take(q)), #[trigger] t[q]),
    ensures
        first_duplicate(acc, t, k) is None,
    decreases t.len() - k,
{
    if k < t.len() {
        lemma_no_duplicate(acc, t, k + 1);
    }
}

proof fn lemma_duplicate_found(acc: Seq<TxInModel>, t: Seq<TxInModel>, k: int, j: int)
    requires
        0 <= k <= j < t.len(),
        has_match(acc + stripped(t.take(j)), t[j]),
    ensures
        first_duplicate(acc, t, k) is Some,
    decreases j - k,
{
    if k < j && !has_match(acc + stripped(t.take(k)), t[k]) {
        lemma_duplicate_found(acc, t, k + 1, j);
    }
}

/// Two transactions with the same header whose inputs all refer to different
/// earlier outputs merge, before the shuffle, into the inputs of both without
/// signatures and the outputs of both; so the shuffled result holds exactly
/// those inputs and outputs, in some order.
pub proof fn lemma_unsigned_merge_union(a: TransactionModel, b: TransactionModel)
    requires
        a.version == b.version,
        a.lock_time == b.lock_time,
        forall|i: int, j: int|
            0 <= i < j < (a.inputs + b.inputs).len() ==> !inputs_match(
                #[trigger] (a.inputs + b.inputs)[i],
                #[trigger] (a.inputs + b.inputs)[j],
            ),
    ensures
        unsigned_merge_spec(seq![a, b]) == Ok::<TransactionModel, MergeError>(
            TransactionModel {
                version: a.version,
                lock_time: a.lock_time,
                inputs: stripped(a.inputs) + stripped(b.inputs),
                outputs: a.outputs + b.outputs,
            },
        ),
        (stripped(a.inputs) + stripped(b.inputs)).to_multiset() == stripped(
            a.inputs,
        ).to_multiset().add(stripped(b.inputs).to_multiset()),
        (a.outputs + b.outputs).to_multiset() == a.outputs.to_multiset().add(
            b.outputs.to_multiset(),
        ),
{
    let txs = seq![a, b];
    assert(txs[0] == a && txs[1] == b);
    let all = a.inputs + b.inputs;
    let empty = Seq::<TxInModel>::empty();
    assert forall|q: int| 0 <= q < a.inputs.len() implies !has_match(
        empty + stripped(a.inputs.take(q)),
        #[trigger] a.inputs[q],
    ) by {
        let s = empty + stripped(a.inputs.take(q));
        assert forall|j: int| 0 <= j < s.len() implies !inputs_match(#[trigger] s[j], a.inputs[q]) by {
            assert(s[j] == strip(a.inputs[j]));
            assert(all[j] == a.inputs[j] && all[q] == a.inputs[q]);
        }
    }
    lemma_no_duplicate(empty, a.inputs, 0);
    let m0 = TransactionModel {
        version: a.version,
        lock_time: a.lock_time,
        inputs: empty,
        outputs: Seq::<TxOutModel>::empty(),
    };
    assert(unsigned_merge_upto(txs, 0) == Ok::<TransactionModel, MergeError>(m0));
    let m = TransactionModel {
        version: a.version,
        lock_time: a.lock_time,
        inputs: empty + stripped(a.inputs),
        outputs: Seq::<TxOutModel>::empty() + a.outputs,
    };
    assert(unsigned_merge_upto(txs, 1) == Ok::<TransactionModel, MergeError>(m));
    assert(m.inputs =~= stripped(a.inputs));
    assert(m.outputs =~= a.outputs);
    let n = a.inputs.len();
    assert forall|q: int| 0 <= q < b.inputs.len() implies !has_match(
        m.inputs + stripped(b.inputs.take(q)),
        #[trigger] b.inputs[q],
    ) by {
        let s = m.inputs + stripped(b.inputs.take(q));
        assert forall|j: int| 0 <= j < s.len() implies !inputs_match(#[trigger] s[j], b.inputs[q]) by {
            assert(all[n + q] == b.inputs[q]);
            if j < n {
                assert(s[j] == strip(a.inputs[j]));
                assert(all[j] == a.inputs[j]);
            } else {
                assert(s[j] == strip(b.inputs[j - n]));
                assert(all[j] == b.inputs[j - n]);
            }
        }
    }
    lemma_no_duplicate(m.inputs, b.inputs, 0);
    vstd::seq_lib::lemma_multiset_commutative(stripped(a.inputs), stripped(b.inputs));
    vstd::seq_lib::lemma_multiset_commutative(a.outputs, b.outputs);
}

/// Two transactions with the same header that share an input (the same
/// earlier output and sequence number) fail to merge with a duplicate input.
pub proof fn lemma_unsigned_merge_duplicate(
    a: TransactionModel,
    b: TransactionModel,
    i: int,
    j: int,
)
    requires
        a.version == b.version,
        a.lock_time == b.lock_time,
        0 <= i < a.inputs.len(),
        0 <= j < b.inputs.len(),
        inputs_match(a.inputs[i], b.inputs[j]),
    ensures
        unsigned_merge_spec(seq![a, b]) matches Err(MergeError::DuplicateInput { .. }),
{
    let txs = seq![a, b];
    assert(txs[0] == a && txs[1] == b);
    let empty = Seq::<TxInModel>::empty();
    let m0 = TransactionModel {
        version: a.version,
        lock_time: a.lock_time,
        inputs: empty,
        outputs: Seq::<TxOutModel>::empty(),
    };
    assert(unsigned_merge_upto(txs, 0) == Ok::<TransactionModel, MergeError>(m0));
    if first_duplicate(empty, a.inputs, 0) is Some {
        assert(unsigned_merge_upto(txs, 1) is Err);
        lemma_unsigned_failure_sticks(txs, 1, 2);
    } else {
        let m = TransactionModel {
            version: a.version,
            lock_time: a.lock_time,
            inputs: empty + stripped(a.inputs),
            outputs: Seq::<TxOutModel>::empty() + a.outputs,
        };
        assert(unsigned_merge_upto(txs, 1) == Ok::<TransactionModel, MergeError>(m));
        let s = m.inputs + stripped(b.inputs.take(j));
        assert(s[i] == strip(a.inputs[i]));
        assert(inputs_match(s[i], b.inputs[j]));
        assert(has_match(s, b.inputs[j]));
        lemma_duplicate_found(m.inputs, b.inputs, 0, j);
    }
}

} // verus!
