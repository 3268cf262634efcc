use starkra::Error;
use starkra::air::{PublicInputs, check_trace, pad_trace};
use starkra::cfg::Cfg;
use starkra::field::{ALPHA, MODULUS, SENTINEL};
use starkra::fmt::fmt_bytes;
use starkra::path::parse_execution_path;
use starkra::trace::build_trace;

fn combine(s: u64, r: u64) -> u64 {
    let t = (s as u128 * ALPHA as u128) % MODULUS as u128;
    ((t + r as u128 + 1) % MODULUS as u128) as u64
}

#[test]
fn single_jump_trace() {
    // one jump along a real edge: one row, the neighbors committed in
    // order, the validity flag set
    let cfg = Cfg::load(b"0 1 2\n1\n2\n").unwrap();
    let path = parse_execution_path(b"initial_node=0 final_node=1\njump 1\n").unwrap();
    let t = build_trace(&path, &cfg, 123).unwrap();
    assert_eq!(t.w, 2);
    assert_eq!(t.rows.len(), 1);
    assert_eq!(t.rows[0], vec![123, 0, 0, 1, 2, 1, 0, 0]);
    assert_eq!(t.end, 1);
    assert_eq!(t.nonce, 123);
}

#[test]
fn start_end_mismatch_detected() {
    // the header declares an end the steps do not reach
    let cfg = Cfg::load(b"0 1 2\n1\n2\n").unwrap();
    let path = parse_execution_path(b"initial_node=0 final_node=1\njump 2\n").unwrap();
    assert_eq!(build_trace(&path, &cfg, 123).err(), Some(Error::StartEndMismatch));
}

#[test]
fn deterministic_build() {
    let cfg = Cfg::load(b"0 1 2\n1 0\n2\n").unwrap();
    let src = b"initial_node=0 final_node=7\ncall 1 7\nret 7\n";
    let path = parse_execution_path(src).unwrap();
    let t1 = build_trace(&path, &cfg, 99).unwrap();
    let t2 = build_trace(&path, &cfg, 99).unwrap();
    assert_eq!(t1.rows, t2.rows);
    assert_eq!(t1.w, t2.w);
    assert_eq!(t1.end, t2.end);
    assert_eq!(t1.last_stack, t2.last_stack);
}

#[test]
fn jump_off_graph_clears_valid() {
    // the target is not a successor: the row exists, its flag is cleared,
    // and the constraint system rejects the padded table
    let cfg = Cfg::load(b"0 1 2\n1\n2\n").unwrap();
    let path = parse_execution_path(b"initial_node=0 final_node=5\njump 5\n").unwrap();
    let t = build_trace(&path, &cfg, 123).unwrap();
    let valid_col = 3 + t.w;
    assert_eq!(t.rows[0][valid_col], 0);
    let pt = pad_trace(&t);
    let pubs = PublicInputs { start: 0, end: 5, nonce: 123 };
    assert!(!check_trace(&pt, &pubs));
}

#[test]
fn call_then_matching_ret() {
    let cfg = Cfg::load(b"0 1\n1\n").unwrap();
    let path = parse_execution_path(b"initial_node=0 final_node=7\ncall 1 7\nret 7\n").unwrap();
    let t = build_trace(&path, &cfg, 5).unwrap();
    assert_eq!(t.rows.len(), 2);
    let valid_col = 3 + t.w;
    // the call pushes and is valid; the return matches and is valid
    assert_eq!(t.rows[0], vec![5, 0, 0, 1, 1, 0, 1]);
    assert_eq!(t.rows[1], vec![5, 1, combine(0, 7), SENTINEL, 1, 1, 0]);
    assert_eq!(t.rows[0][valid_col], 1);
    assert_eq!(t.rows[1][valid_col], 1);
    assert_eq!(t.last_stack, 0);
}

#[test]
fn mismatched_ret_clears_valid() {
    let cfg = Cfg::load(b"0 1\n1\n").unwrap();
    let path = parse_execution_path(b"initial_node=0 final_node=9\ncall 1 7\nret 9\n").unwrap();
    let t = build_trace(&path, &cfg, 5).unwrap();
    let valid_col = 3 + t.w;
    assert_eq!(t.rows[1][valid_col], 0);
    let pt = pad_trace(&t);
    assert!(!check_trace(&pt, &PublicInputs { start: 0, end: 9, nonce: 5 }));
}

#[test]
fn ret_on_empty_stack_clears_valid() {
    let cfg = Cfg::load(b"0 1\n1\n").unwrap();
    let path = parse_execution_path(b"initial_node=0 final_node=3\nret 3\n").unwrap();
    let t = build_trace(&path, &cfg, 5).unwrap();
    let valid_col = 3 + t.w;
    assert_eq!(t.rows[0][valid_col], 0);
}

#[test]
fn padded_trace_accepted() {
    // a fully valid path: the padded table passes every constraint with
    // the right public inputs, and fails with any altered one
    let cfg = Cfg::load(b"0 1 2\n1 0\n2\n").unwrap();
    let path = parse_execution_path(b"initial_node=0 final_node=7\ncall 1 7\nret 7\n").unwrap();
    let t = build_trace(&path, &cfg, 123).unwrap();
    let pt = pad_trace(&t);
    assert_eq!(pt.rows.len(), 8);
    assert!(check_trace(&pt, &PublicInputs { start: 0, end: 7, nonce: 123 }));
    assert!(!check_trace(&pt, &PublicInputs { start: 0, end: 2, nonce: 123 }));
    assert!(!check_trace(&pt, &PublicInputs { start: 1, end: 7, nonce: 123 }));
    assert!(!check_trace(&pt, &PublicInputs { start: 0, end: 7, nonce: 124 }));
}

#[test]
fn padding_reaches_power_of_two() {
    let cfg = Cfg::load(b"0 0\n").unwrap();
    let mut src = String::from("initial_node=0 final_node=0\n");
    for _ in 0..9 {
        src.push_str("jump 0\n");
    }
    let path = parse_execution_path(src.as_bytes()).unwrap();
    let t = build_trace(&path, &cfg, 1).unwrap();
    assert_eq!(t.rows.len(), 9);
    let pt = pad_trace(&t);
    assert_eq!(pt.rows.len(), 16);
    assert!(check_trace(&pt, &PublicInputs { start: 0, end: 0, nonce: 1 }));
}

#[test]
fn nonce_reduced_into_field() {
    let cfg = Cfg::load(b"0 1\n").unwrap();
    let path = parse_execution_path(b"initial_node=0 final_node=1\njump 1\n").unwrap();
    let t = build_trace(&path, &cfg, u64::MAX).unwrap();
    assert_eq!(t.nonce, u64::MAX % MODULUS);
    assert_eq!(t.rows[0][0], u64::MAX % MODULUS);
}

#[test]
fn fmt_bytes_plain() {
    assert_eq!(fmt_bytes(0), "0 bytes");
    assert_eq!(fmt_bytes(512), "512 bytes");
    assert_eq!(fmt_bytes(1023), "1023 bytes");
}

#[test]
fn fmt_bytes_units() {
    assert_eq!(fmt_bytes(1024), "1.00 KiB (1024 bytes)");
    assert_eq!(fmt_bytes(1536), "1.50 KiB (1536 bytes)");
    assert_eq!(fmt_bytes(2621440), "2.50 MiB (2621440 bytes)");
    assert_eq!(fmt_bytes(1073741824), "1.00 GiB (1073741824 bytes)");
    assert_eq!(fmt_bytes(1610612736), "1.50 GiB (1610612736 bytes)");
}
