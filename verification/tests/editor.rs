use windfish::editor::Editor;
use windfish::model::{DeltaMap, MempoolSerde, Txn, UnbroadcastSet};
use windfish::MempoolSerdeError;

fn tx_bytes() -> Vec<u8> {
    let mut v = vec![1u8, 0, 0, 0];
    v.push(1);
    for _ in 0..32 {
        v.push(0);
    }
    v.extend_from_slice(&[0, 0, 0, 0]);
    v.push(0);
    v.extend_from_slice(&[0xff, 0xff, 0xff, 0xff]);
    v.push(1);
    v.extend_from_slice(&[0x00, 0xe1, 0xf5, 0x05, 0, 0, 0, 0]);
    v.push(0);
    v.extend_from_slice(&[0, 0, 0, 0]);
    v
}

fn to_hex(b: &[u8]) -> String {
    let mut s = String::new();
    for x in b {
        s.push_str(&format!("{:02x}", x));
    }
    s
}

fn snapshot_with(n: usize) -> MempoolSerde {
    let mut txs = Vec::new();
    for k in 0..n {
        txs.push(Txn { payload: tx_bytes(), time: 1000 + k as i64, fee_delta: k as i64 });
    }
    MempoolSerde {
        version: 1,
        txs,
        map_deltas: DeltaMap { pairs: Vec::new() },
        unbroadcast_txids: UnbroadcastSet { ids: Vec::new() },
    }
}

#[test]
fn new_session_selects_first_entry() {
    let ed = Editor::new(snapshot_with(2));
    assert_eq!(ed.selected, Some(0));
    let t = ed.selected_tx().unwrap();
    assert_eq!(t.time, 1000);
}

#[test]
fn new_session_on_empty_snapshot_selects_nothing() {
    let ed = Editor::new(snapshot_with(0));
    assert_eq!(ed.selected, None);
    assert!(ed.selected_tx().is_none());
}

#[test]
fn navigation_wraps_both_ways() {
    let mut ed = Editor::new(snapshot_with(3));
    ed.next();
    assert_eq!(ed.selected, Some(1));
    ed.next();
    assert_eq!(ed.selected, Some(2));
    ed.next();
    assert_eq!(ed.selected, Some(0));
    ed.previous();
    assert_eq!(ed.selected, Some(2));
    ed.previous();
    assert_eq!(ed.selected, Some(1));
}

#[test]
fn navigation_on_empty_list_is_a_no_op() {
    let mut ed = Editor::new(snapshot_with(0));
    ed.next();
    assert_eq!(ed.selected, None);
    ed.previous();
    assert_eq!(ed.selected, None);
}

#[test]
fn delete_removes_exactly_one() {
    let mut ed = Editor::new(snapshot_with(3));
    ed.next(); // select index 1
    ed.delete_selected();
    assert_eq!(ed.mempool.txs.len(), 2);
    assert_eq!(ed.mempool.txs[0].time, 1000);
    assert_eq!(ed.mempool.txs[1].time, 1002);
    assert_eq!(ed.selected, Some(1));
}

#[test]
fn delete_last_entry_moves_cursor_back() {
    let mut ed = Editor::new(snapshot_with(2));
    ed.next(); // select index 1
    ed.delete_selected();
    assert_eq!(ed.mempool.txs.len(), 1);
    assert_eq!(ed.selected, Some(0));
    ed.delete_selected();
    assert_eq!(ed.mempool.txs.len(), 0);
    assert_eq!(ed.selected, None);
    ed.delete_selected(); // nothing selected: no-op
    assert_eq!(ed.mempool.txs.len(), 0);
}

#[test]
fn insert_appends_and_selects_the_new_entry() {
    let mut ed = Editor::new(snapshot_with(2));
    let hex = to_hex(&tx_bytes());
    ed.insert_tx_at(&hex, 424242).unwrap();
    assert_eq!(ed.mempool.txs.len(), 3);
    assert_eq!(ed.selected, Some(2));
    assert_eq!(ed.mempool.txs[2].payload, tx_bytes());
    assert_eq!(ed.mempool.txs[2].time, 424242);
    assert_eq!(ed.mempool.txs[2].fee_delta, 0);
}

#[test]
fn insert_accepts_uppercase_hex() {
    let mut ed = Editor::new(snapshot_with(0));
    let hex = to_hex(&tx_bytes()).to_uppercase();
    ed.insert_tx_at(&hex, 7).unwrap();
    assert_eq!(ed.mempool.txs[0].payload, tx_bytes());
}

#[test]
fn insert_truncates_trailing_bytes_after_the_record() {
    let mut ed = Editor::new(snapshot_with(0));
    let mut hex = to_hex(&tx_bytes());
    hex.push_str("0000"); // two bytes past the record's end
    ed.insert_tx_at(&hex, 7).unwrap();
    assert_eq!(ed.mempool.txs[0].payload, tx_bytes());
}

#[test]
fn insert_rejects_odd_length_hex() {
    let mut ed = Editor::new(snapshot_with(1));
    let r = ed.insert_tx_at("abc", 7);
    assert!(matches!(r, Err(MempoolSerdeError::InvalidHex)));
    assert_eq!(ed.mempool.txs.len(), 1);
    assert_eq!(ed.selected, Some(0));
}

#[test]
fn insert_rejects_non_hex_characters() {
    let mut ed = Editor::new(snapshot_with(1));
    let r = ed.insert_tx_at("zz00", 7);
    assert!(matches!(r, Err(MempoolSerdeError::InvalidHex)));
    assert_eq!(ed.mempool.txs.len(), 1);
}

#[test]
fn insert_rejects_hex_that_is_no_transaction() {
    let mut ed = Editor::new(snapshot_with(1));
    let r = ed.insert_tx_at("deadbeef", 7);
    assert!(matches!(r, Err(MempoolSerdeError::InvalidPayload)));
    assert_eq!(ed.mempool.txs.len(), 1);
}

#[test]
fn insert_with_wall_clock_appends() {
    let mut ed = Editor::new(snapshot_with(0));
    let hex = to_hex(&tx_bytes());
    ed.insert_tx(&hex).unwrap();
    assert_eq!(ed.mempool.txs.len(), 1);
    assert_eq!(ed.mempool.txs[0].payload, tx_bytes());
    assert_eq!(ed.mempool.txs[0].fee_delta, 0);
}

#[test]
fn edited_snapshot_serializes_cleanly() {
    let mut ed = Editor::new(snapshot_with(3));
    ed.delete_selected();
    let hex = to_hex(&tx_bytes());
    ed.insert_tx_at(&hex, 5).unwrap();
    let bytes = ed.mempool.to_bytes().unwrap();
    let back = MempoolSerde::from_bytes(&bytes).unwrap();
    assert_eq!(back.txs.len(), 3);
    assert_eq!(back.txs[0].time, 1001);
    assert_eq!(back.txs[1].time, 1002);
    assert_eq!(back.txs[2].time, 5);
}
