use starkra::Error;
use starkra::cfg::Cfg;
use starkra::path::{ExecutionPath, Step, parse_execution_path};
use starkra::text::parse_num;

#[test]
fn parse_num_decimal() {
    assert_eq!(parse_num(b"30"), Some(30));
    assert_eq!(parse_num(b"0"), Some(0));
    assert_eq!(parse_num(b"+5"), Some(5));
    assert_eq!(parse_num(b"18446744073709551615"), Some(u64::MAX));
}

#[test]
fn parse_num_hex() {
    assert_eq!(parse_num(b"0x1f"), Some(31));
    assert_eq!(parse_num(b"0x0"), Some(0));
    assert_eq!(parse_num(b"0xFFFFFFFFFFFFFFFF"), Some(u64::MAX));
}

#[test]
fn parse_num_rejects() {
    assert_eq!(parse_num(b""), None);
    assert_eq!(parse_num(b"0x"), None);
    assert_eq!(parse_num(b"12x"), None);
    assert_eq!(parse_num(b"-3"), None);
    // one past u64::MAX
    assert_eq!(parse_num(b"18446744073709551616"), None);
    assert_eq!(parse_num(b"0x10000000000000000"), None);
}

#[test]
fn cfg_load_basic() {
    let cfg = Cfg::load(b"0 1 2\n1\n2\n").unwrap();
    assert_eq!(cfg.max_out_degree(), 2);
    assert_eq!(cfg.successors(0), vec![1, 2]);
    assert_eq!(cfg.successors(1), Vec::<u64>::new());
    // an unknown node is a sink
    assert_eq!(cfg.successors(9), Vec::<u64>::new());
}

#[test]
fn cfg_duplicate_node() {
    assert_eq!(Cfg::load(b"0 1\n0 2\n").err(), Some(Error::DuplicateNode));
}

#[test]
fn cfg_malformed_line() {
    assert_eq!(Cfg::load(b"0 1\nx 2\n").err(), Some(Error::MalformedAdjacency));
    // a blank line has no node id
    assert_eq!(Cfg::load(b"0 1\n\n2\n").err(), Some(Error::MalformedAdjacency));
}

#[test]
fn path_parse_basic() {
    let p = parse_execution_path(b"initial_node=0 final_node=1\njump 1\n").unwrap();
    assert_eq!(p.start, 0);
    assert_eq!(p.end, 1);
    assert_eq!(p.steps, vec![Step::Jump { addr: 1 }]);
}

#[test]
fn path_parse_all_opcodes() {
    let src = b"final_node=7 initial_node=0\ncall 0x1 7\n\n  ret 7\njmp 2\n";
    let p: ExecutionPath = parse_execution_path(src).unwrap();
    assert_eq!(p.start, 0);
    assert_eq!(p.end, 7);
    assert_eq!(
        p.steps,
        vec![
            Step::Call { addr: 1, retaddr: 7 },
            Step::Ret { retaddr: 7 },
            Step::Jump { addr: 2 },
        ]
    );
}

#[test]
fn path_missing_header_field() {
    assert_eq!(
        parse_execution_path(b"final_node=1\njump 1\n").map(|p| p.start),
        Err(Error::MissingHeaderField)
    );
    assert_eq!(
        parse_execution_path(b"").map(|p| p.start),
        Err(Error::MissingHeaderField)
    );
    // a malformed value counts as absent
    assert_eq!(
        parse_execution_path(b"initial_node=zz final_node=1\n").map(|p| p.start),
        Err(Error::MissingHeaderField)
    );
}

#[test]
fn path_unknown_opcode() {
    assert_eq!(
        parse_execution_path(b"initial_node=0 final_node=1\nhop 1\n").map(|p| p.start),
        Err(Error::UnknownOpcode)
    );
}

#[test]
fn path_arity_mismatch() {
    assert_eq!(
        parse_execution_path(b"initial_node=0 final_node=1\njump\n").map(|p| p.start),
        Err(Error::ArityMismatch)
    );
    assert_eq!(
        parse_execution_path(b"initial_node=0 final_node=1\ncall 1\n").map(|p| p.start),
        Err(Error::ArityMismatch)
    );
}

#[test]
fn path_invalid_number() {
    assert_eq!(
        parse_execution_path(b"initial_node=0 final_node=1\njump 0xzz\n").map(|p| p.start),
        Err(Error::InvalidNumber)
    );
    assert_eq!(
        parse_execution_path(b"initial_node=0 final_node=1\nret 1q\n").map(|p| p.start),
        Err(Error::InvalidNumber)
    );
}
