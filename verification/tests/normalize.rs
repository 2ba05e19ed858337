use sum_btc::normalize::{decode_address, output_utxo, process_txs, RawInput, RawOutput, RawTx};
use sum_btc::model::SumTx;

fn unhex(s: &str) -> Vec<u8> {
    (0..s.len() / 2)
        .map(|i| u8::from_str_radix(&s[2 * i..2 * i + 2], 16).unwrap())
        .collect()
}

const GENESIS_KEY: &str = "04678afdb0fe5548271967f1a67130b7105cd6a828e03909a67962e0ea1f61deb649f6bc3f4cef38c4f35504e51ec112de5c384df7ba0b8d578a4c702b6bf11d5f";
const GENESIS_ADDRESS: &str = "1A1zP1eP5QGefi2DMPTfTL5SLmv7DivfNa";

fn pay_to_key() -> Vec<u8> {
    let mut script = vec![0x41];
    script.extend(unhex(GENESIS_KEY));
    script.push(0xac);
    script
}

fn pay_to_key_hash() -> Vec<u8> {
    let mut script = vec![0x76, 0xa9, 0x14];
    script.extend(unhex("62e907b15cbf27d5425399ebf6f0fb50ebb88f18"));
    script.extend([0x88, 0xac]);
    script
}

#[test]
fn address_of_a_key_hash_script() {
    assert_eq!(decode_address(&pay_to_key_hash()), Some(GENESIS_ADDRESS.to_string()));
}

#[test]
fn address_of_a_key_script() {
    assert_eq!(decode_address(&pay_to_key()), Some(GENESIS_ADDRESS.to_string()));
}

#[test]
fn address_of_a_witness_script() {
    let mut script = vec![0x00, 0x14];
    script.extend(unhex("751e76e8199196d454941c45d1b3a323f1433bd6"));
    assert_eq!(
        decode_address(&script),
        Some("bc1qw508d6qejxtdg4y5r3zarvary0c5xw7kv8f3t4".to_string())
    );
}

#[test]
fn scripts_without_an_address() {
    assert_eq!(decode_address(&vec![]), None);
    assert_eq!(decode_address(&vec![0x6a, 0x01, 0x00]), None);
    // the shape of a key script around bytes that are no key
    let mut script = vec![0x21];
    script.extend([0u8; 33]);
    script.push(0xac);
    assert_eq!(decode_address(&script), None);
}

#[test]
fn an_output_without_address_is_left_out() {
    assert!(output_utxo(3, 9, None).is_none());
    let u = output_utxo(3, 9, Some("addr".to_string())).unwrap();
    assert_eq!((u.index, u.address.as_str(), u.value), (3, "addr", 9));
}

#[test]
fn a_transaction_normalised() {
    let raw = RawTx {
        is_coinbase: false,
        txid: "t9".to_string(),
        inputs: vec![
            RawInput { txid: "t1".to_string(), vout: 2 },
            RawInput { txid: "t2".to_string(), vout: 0 },
        ],
        outputs: vec![
            RawOutput { script: pay_to_key(), value: 11 },
            RawOutput { script: vec![0x6a], value: 0 },
            RawOutput { script: pay_to_key_hash(), value: 33 },
        ],
    };
    let tx = SumTx::from_raw(&raw);
    assert!(!tx.is_coinbase);
    assert_eq!(tx.txid, "t9");
    assert_eq!(tx.ins.len(), 2);
    assert_eq!((tx.ins[0].index, tx.ins[0].tx_id.as_str()), (2, "t1"));
    assert_eq!((tx.ins[1].index, tx.ins[1].tx_id.as_str()), (0, "t2"));
    assert_eq!(tx.outs.len(), 2);
    assert_eq!((tx.outs[0].index, tx.outs[0].address.as_str(), tx.outs[0].value), (0, GENESIS_ADDRESS, 11));
    // the position counts the output that was left out
    assert_eq!((tx.outs[1].index, tx.outs[1].address.as_str(), tx.outs[1].value), (2, GENESIS_ADDRESS, 33));
}

#[test]
fn a_block_normalised_in_order() {
    let txs = vec![
        RawTx {
            is_coinbase: true,
            txid: "c".to_string(),
            inputs: vec![RawInput { txid: "0".to_string(), vout: 4294967295 }],
            outputs: vec![RawOutput { script: pay_to_key(), value: 50 }],
        },
        RawTx { is_coinbase: false, txid: "d".to_string(), inputs: vec![], outputs: vec![] },
    ];
    let out = process_txs(&txs);
    assert_eq!(out.len(), 2);
    assert!(out[0].is_coinbase);
    assert_eq!(out[0].txid, "c");
    assert_eq!(out[0].ins[0].index, 4294967295);
    assert_eq!(out[0].outs[0].value, 50);
    assert_eq!(out[1].txid, "d");
    assert!(out[1].outs.is_empty());
}
