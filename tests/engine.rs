use hypersonic::{
    read_deeds, AcceptError, Articles, AuthToken, CallParams, Deed, IssueError, LoadError, Opid,
    Stock, StockError, LEDGER_MAGIC_NUMBER,
};

fn genesis(outputs: Vec<u64>) -> Deed {
    Deed { method: 0, inputs: vec![], outputs, witness: vec![1, 2, 3] }
}

fn fresh(outputs: Vec<u64>) -> Stock {
    let articles = Articles::issue(Opid { w0: 7, w1: 0, w2: 0, w3: 0 }, b"demo".to_vec(), genesis(outputs)).unwrap();
    Stock::process(articles)
}

fn tok(opid: Opid, pos: u64) -> AuthToken {
    AuthToken { opid, pos }
}

fn params(method: u64, inputs: Vec<AuthToken>, outputs: Vec<u64>) -> CallParams {
    CallParams { method, inputs, outputs, witness: vec![9] }
}

fn deed_of(p: &CallParams) -> Deed {
    Deed { method: p.method, inputs: p.inputs.clone(), outputs: p.outputs.clone(), witness: p.witness.clone() }
}

fn all_true(n: usize) -> Vec<bool> {
    vec![true; n]
}

#[test]
fn scenario_issue_call_export() {
    let mut st = fresh(vec![100]);
    let g = tok(genesis(vec![100]).opid(), 0);
    assert_eq!(st.resolve(&vec![g]), Ok(vec![100]));
    let x = st.call(params(1, vec![g], vec![10, 20]), true).unwrap();
    let (tx, ty) = (tok(x, 0), tok(x, 1));
    assert_eq!(st.resolve(&vec![tx, ty]), Ok(vec![10, 20]));
    assert_eq!(st.resolve(&vec![g]), Err(StockError::AlreadySpent));
    assert_eq!(st.ledger().len(), 2);
    let file = st.export(&vec![tx]);
    let deeds = read_deeds(&file).unwrap();
    assert_eq!(deeds.len(), 2);
    assert_eq!(deeds[0].opid(), g.opid);
    assert_eq!(deeds[1].opid(), x);
}

#[test]
fn export_omits_unrelated_deeds() {
    let mut st = fresh(vec![1, 2]);
    let gid = genesis(vec![1, 2]).opid();
    let a = st.call(params(1, vec![tok(gid, 0)], vec![5]), true).unwrap();
    let b = st.call(params(1, vec![tok(gid, 1)], vec![6]), true).unwrap();
    let deeds = read_deeds(&st.export(&vec![tok(b, 0)])).unwrap();
    assert_eq!(deeds.len(), 2);
    assert_eq!(deeds[1].opid(), b);
    assert!(deeds.iter().all(|d| d.opid() != a));
    let none = read_deeds(&st.export(&vec![])).unwrap();
    assert_eq!(none.len(), 0);
}

#[test]
fn export_is_deterministic() {
    let mut st = fresh(vec![100]);
    let g = tok(genesis(vec![100]).opid(), 0);
    let x = st.call(params(1, vec![g], vec![10, 20]), true).unwrap();
    let one = st.export(&vec![tok(x, 0), tok(x, 1)]);
    let two = st.export(&vec![tok(x, 1), tok(x, 0), tok(x, 1)]);
    assert_eq!(one, two);
    assert_eq!(one, st.export(&vec![tok(x, 0), tok(x, 1)]));
}

#[test]
fn accept_is_idempotent() {
    let mut src = fresh(vec![100]);
    let g = tok(genesis(vec![100]).opid(), 0);
    let x = src.call(params(1, vec![g], vec![10, 20]), true).unwrap();
    let deeds = read_deeds(&src.export(&vec![tok(x, 0)])).unwrap();
    let mut dst = fresh(vec![100]);
    assert_eq!(dst.accept(&deeds, &all_true(deeds.len())), Ok(()));
    let once = dst.save();
    assert_eq!(dst.accept(&deeds, &all_true(deeds.len())), Ok(()));
    assert_eq!(dst.save(), once);
    assert_eq!(dst.ledger().len(), 2);
}

#[test]
fn conflicting_spend_is_detected() {
    let mut st = fresh(vec![100]);
    let g = tok(genesis(vec![100]).opid(), 0);
    let a = st.call(params(1, vec![g], vec![10]), true).unwrap();
    let b = deed_of(&params(1, vec![g], vec![11]));
    assert!(b.opid() != a);
    let before = st.save();
    assert_eq!(st.accept(&vec![b], &vec![true]), Err(AcceptError::ConflictingSpend));
    assert_eq!(st.ledger().len(), 2);
    assert_eq!(st.ledger().opid_at(1), a);
    assert_eq!(st.save(), before);
}

#[test]
fn failed_call_and_accept_leave_state_alone() {
    let mut st = fresh(vec![100]);
    let g = tok(genesis(vec![100]).opid(), 0);
    let before = st.save();
    assert_eq!(st.call(params(1, vec![g], vec![10]), false), Err(StockError::SchemaViolation));
    assert_eq!(st.save(), before);
    let d1 = deed_of(&params(1, vec![g], vec![10]));
    let d2 = deed_of(&params(2, vec![tok(d1.opid(), 0)], vec![3]));
    assert_eq!(st.accept(&vec![d1, d2], &vec![true, false]), Err(AcceptError::SchemaViolation));
    assert_eq!(st.save(), before);
    assert_eq!(st.ledger().len(), 1);
}

#[test]
fn round_trip_through_fresh_stock() {
    let mut src = fresh(vec![100]);
    let g = tok(genesis(vec![100]).opid(), 0);
    let x = src.call(params(1, vec![g], vec![10, 20]), true).unwrap();
    let y = src.call(params(2, vec![tok(x, 0)], vec![30]), true).unwrap();
    let terms = vec![tok(y, 0), tok(x, 1)];
    let deeds = read_deeds(&src.export(&terms)).unwrap();
    let mut dst = fresh(vec![100]);
    assert_eq!(dst.accept(&deeds, &all_true(deeds.len())), Ok(()));
    assert_eq!(dst.resolve(&terms), src.resolve(&terms));
    assert_eq!(dst.resolve(&terms), Ok(vec![30, 20]));
    assert_eq!(dst.ledger().len(), 3);
}

#[test]
fn confluence_of_two_exports() {
    let mut src = fresh(vec![1, 2]);
    let gid = genesis(vec![1, 2]).opid();
    let a = src.call(params(1, vec![tok(gid, 0)], vec![5]), true).unwrap();
    let b = src.call(params(1, vec![tok(gid, 1)], vec![6]), true).unwrap();
    let da = read_deeds(&src.export(&vec![tok(a, 0)])).unwrap();
    let db = read_deeds(&src.export(&vec![tok(b, 0)])).unwrap();
    let mut one = fresh(vec![1, 2]);
    one.accept(&da, &all_true(da.len())).unwrap();
    one.accept(&db, &all_true(db.len())).unwrap();
    let mut two = fresh(vec![1, 2]);
    two.accept(&db, &all_true(db.len())).unwrap();
    two.accept(&da, &all_true(da.len())).unwrap();
    let all = vec![tok(a, 0), tok(b, 0)];
    assert_eq!(one.resolve(&all), Ok(vec![5, 6]));
    assert_eq!(two.resolve(&all), Ok(vec![5, 6]));
    assert_eq!(one.resolve(&vec![tok(gid, 0)]), two.resolve(&vec![tok(gid, 0)]));
}

#[test]
fn call_errors() {
    let mut st = fresh(vec![100]);
    let g = tok(genesis(vec![100]).opid(), 0);
    let unknown = tok(Opid { w0: 1, w1: 2, w2: 3, w3: 4 }, 0);
    assert_eq!(st.call(params(1, vec![unknown], vec![1]), true), Err(StockError::UnknownToken));
    assert_eq!(st.call(params(1, vec![tok(g.opid, 1)], vec![1]), true), Err(StockError::UnknownToken));
    assert_eq!(st.call(params(1, vec![], vec![1]), true), Err(StockError::SchemaViolation));
    assert_eq!(st.call(params(1, vec![g, g], vec![1]), true), Err(StockError::AlreadySpent));
    assert_eq!(st.resolve(&vec![unknown]), Err(StockError::UnknownToken));
    st.call(params(1, vec![g], vec![1]), true).unwrap();
    assert_eq!(st.call(params(2, vec![g], vec![2]), true), Err(StockError::AlreadySpent));
}

#[test]
fn accept_errors() {
    let mut st = fresh(vec![100]);
    let g = tok(genesis(vec![100]).opid(), 0);
    let orphan = deed_of(&params(1, vec![tok(Opid { w0: 5, w1: 5, w2: 5, w3: 5 }, 0)], vec![1]));
    assert_eq!(st.accept(&vec![orphan], &vec![true]), Err(AcceptError::BrokenChain));
    let lone = Deed { method: 3, inputs: vec![], outputs: vec![1], witness: vec![] };
    assert_eq!(st.accept(&vec![lone], &vec![true]), Err(AcceptError::SchemaViolation));
    let d1 = deed_of(&params(1, vec![g], vec![10]));
    let d2 = deed_of(&params(2, vec![tok(d1.opid(), 0)], vec![3]));
    assert_eq!(st.accept(&vec![d2, d1], &vec![true, true]), Err(AcceptError::BrokenChain));
    assert_eq!(st.ledger().len(), 1);
}

#[test]
fn deeds_file_format_is_checked() {
    assert_eq!(read_deeds(&vec![]).err(), Some(AcceptError::FormatMismatch));
    let mut st = fresh(vec![100]);
    let g = tok(genesis(vec![100]).opid(), 0);
    let x = st.call(params(1, vec![g], vec![10]), true).unwrap();
    let file = st.export(&vec![tok(x, 0)]);
    let mut bad = file.clone();
    bad[0] ^= 1;
    assert_eq!(read_deeds(&bad).err(), Some(AcceptError::FormatMismatch));
    let mut bad = file.clone();
    bad[8] = 2;
    assert_eq!(read_deeds(&bad).err(), Some(AcceptError::FormatMismatch));
    let mut bad = file.clone();
    bad.push(0);
    assert_eq!(read_deeds(&bad).err(), Some(AcceptError::FormatMismatch));
    let short = file[..file.len() - 1].to_vec();
    assert_eq!(read_deeds(&short).err(), Some(AcceptError::FormatMismatch));
}

#[test]
fn save_and_load() {
    let mut st = fresh(vec![100]);
    let g = tok(genesis(vec![100]).opid(), 0);
    let x = st.call(params(1, vec![g], vec![10, 20]), true).unwrap();
    let bytes = st.save();
    assert_eq!(&bytes[..8], &LEDGER_MAGIC_NUMBER.to_le_bytes());
    let back = Stock::load(&bytes).unwrap();
    assert_eq!(back.save(), bytes);
    assert_eq!(back.resolve(&vec![tok(x, 1)]), Ok(vec![20]));
    assert_eq!(back.articles().name(), &b"demo".to_vec());
    let mut bad = bytes.clone();
    bad[0] ^= 1;
    assert_eq!(Stock::load(&bad).err(), Some(LoadError::BadMagic));
    let mut bad = bytes.clone();
    bad[8] = 9;
    assert_eq!(Stock::load(&bad).err(), Some(LoadError::BadVersion));
    let short = bytes[..bytes.len() - 3].to_vec();
    assert_eq!(Stock::load(&short).err(), Some(LoadError::Corrupt));
    assert_eq!(Stock::load(&vec![1, 2]).err(), Some(LoadError::BadMagic));
}

#[test]
fn issue_rejects_genesis_with_inputs() {
    let g = Deed { method: 0, inputs: vec![tok(Opid { w0: 1, w1: 1, w2: 1, w3: 1 }, 0)], outputs: vec![], witness: vec![] };
    assert_eq!(Articles::issue(Opid { w0: 0, w1: 0, w2: 0, w3: 0 }, vec![], g).err(), Some(IssueError::GenesisHasInputs));
}

#[test]
fn deed_id_is_sha256_of_encoding() {
    let empty = Deed { method: 0, inputs: vec![], outputs: vec![], witness: vec![] };
    assert_eq!(empty.encode(), vec![0u8; 32]);
    let id = empty.opid();
    assert_eq!(id.w0, u64::from_le_bytes([0x66, 0x68, 0x7a, 0xad, 0xf8, 0x62, 0xbd, 0x77]));
    assert_eq!(id.w3, u64::from_le_bytes([0x90, 0x2a, 0x59, 0x1d, 0x0d, 0x5f, 0x29, 0x25]));
    let other = Deed { method: 1, inputs: vec![], outputs: vec![], witness: vec![] };
    assert!(other.opid() != id);
}

#[test]
fn deed_encoding_layout() {
    let d = Deed { method: 2, inputs: vec![tok(Opid { w0: 1, w1: 2, w2: 3, w3: 4 }, 5)], outputs: vec![6, 7], witness: vec![8] };
    let e = d.encode();
    assert_eq!(e.len(), 8 + 8 + 40 + 8 + 16 + 8 + 1);
    assert_eq!(e[0], 2);
    assert_eq!(e[8], 1);
    assert_eq!(e[e.len() - 1], 8);
}

#[test]
fn state_lists_live_tokens() {
    let mut st = fresh(vec![100]);
    let g = tok(genesis(vec![100]).opid(), 0);
    assert_eq!(st.state(), vec![(g, 100)]);
    let x = st.call(params(1, vec![g], vec![10, 20]), true).unwrap();
    assert_eq!(st.state(), vec![(tok(x, 0), 10), (tok(x, 1), 20)]);
}

#[test]
fn order_deeds_puts_a_file_in_causal_order() {
    let st = fresh(vec![100]);
    let g = tok(genesis(vec![100]).opid(), 0);
    let d1 = deed_of(&params(1, vec![g], vec![10]));
    let d2 = deed_of(&params(2, vec![tok(d1.opid(), 0)], vec![3]));
    let (id1, id2) = (d1.opid(), d2.opid());
    let ordered = st.order_deeds(vec![d2, d1]).unwrap();
    assert_eq!(ordered.iter().map(|d| d.opid()).collect::<Vec<_>>(), vec![id1, id2]);
    let mut st = st;
    assert_eq!(st.accept(&ordered, &vec![true, true]), Ok(()));
    assert_eq!(st.ledger().len(), 3);
    let orphan = deed_of(&params(1, vec![tok(Opid { w0: 5, w1: 5, w2: 5, w3: 5 }, 0)], vec![1]));
    assert_eq!(st.order_deeds(vec![orphan]).err(), Some(AcceptError::BrokenChain));
}
