use coinjoin::transaction::{Transaction, TxOut};

fn with_values(values: &[u64]) -> Transaction {
    Transaction {
        version: 1,
        lock_time: 0,
        inputs: Vec::new(),
        outputs: values.iter().map(|v| TxOut { value: *v, script_pubkey: vec![0x51] }).collect(),
    }
}

#[test]
fn higher_count_wins() {
    assert_eq!(with_values(&[100, 100, 10]).most_popular_output(), 100);
    assert_eq!(with_values(&[10, 100, 100]).most_popular_output(), 100);
}

#[test]
fn count_beats_roundness() {
    assert_eq!(with_values(&[100, 200, 100]).most_popular_output(), 100);
    assert_eq!(with_values(&[7, 1000, 7]).most_popular_output(), 7);
}

#[test]
fn rounder_value_wins_a_tie() {
    assert_eq!(with_values(&[20, 200]).most_popular_output(), 200);
    assert_eq!(with_values(&[200, 20]).most_popular_output(), 200);
    assert_eq!(with_values(&[1000, 10]).most_popular_output(), 1000);
}

#[test]
fn zero_is_roundest() {
    assert_eq!(with_values(&[1_000_000, 0]).most_popular_output(), 0);
}

#[test]
fn full_tie_goes_to_first() {
    assert_eq!(with_values(&[300, 200]).most_popular_output(), 300);
    assert_eq!(with_values(&[7, 9]).most_popular_output(), 7);
}

#[test]
fn no_outputs_gives_zero() {
    assert_eq!(with_values(&[]).most_popular_output(), 0);
}
