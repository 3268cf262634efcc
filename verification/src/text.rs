//! Byte-level text helpers shared by the graph loader and the path parser:
//! splitting a source into lines, splitting a line into whitespace-separated
//! tokens, and reading decimal or `0x`-prefixed hexadecimal numerals.

use vstd::prelude::*;
use vstd::slice::slice_index_get;

verus! {

pub const NL: u8 = 10;

pub const CR: u8 = 13;

/// ASCII whitespace, as a token separator inside a line.
pub open spec fn is_ws(b: u8) -> bool {
    b == 32 || (9 <= b && b <= 13)
}

/// Index of the first line feed at or after `i`, or the length if none.
pub open spec fn nl_at(s: Seq<u8>, i: int) -> int
    decreases s.len() - i,
{
    if i >= s.len() {
        s.len() as int
    } else if s[i] == NL {
        i
    } else {
        nl_at(s, i + 1)
    }
}

/// A line keeps its bytes up to the line feed, without a carriage return
/// that immediately precedes the line feed.
pub open spec fn strip_cr(l: Seq<u8>) -> Seq<u8> {
    if l.len() > 0 && l.last() == CR {
        l.drop_last()
    } else {
        l
    }
}

/// The lines of `s` starting at position `i`; a final line feed does not
/// open an extra empty line.
pub open spec fn lines_from(s: Seq<u8>, i: int) -> Seq<Seq<u8>>
    decreases s.len() - i,
    via lines_from_dec
{
    if i >= s.len() {
        seq![]
    } else {
        let e = nl_at(s, i);
        if e == s.len() {
            seq![s.subrange(i, e)]
        } else {
            seq![strip_cr(s.subrange(i, e))] + lines_from(s, e + 1)
        }
    }
}

#[via_fn]
proof fn lines_from_dec(s: Seq<u8>, i: int) {
    if i < s.len() {
        lemma_nl_at_bounds(s, i);
    }
}

pub proof fn lemma_nl_at_bounds(s: Seq<u8>, i: int)
    requires
        i <= s.len(),
    ensures
        i <= nl_at(s, i) <= s.len(),
    decreases s.len() - i,
{
    if i < s.len() && s[i] != NL {
        lemma_nl_at_bounds(s, i + 1);
    }
}

pub open spec fn lines_view(out: Seq<Vec<u8>>) -> Seq<Seq<u8>> {
    out.map_values(|l: Vec<u8>| l@)
}

/// Splits a byte source into its lines.
pub fn split_lines(src: &[u8]) -> (out: Vec<Vec<u8>>)
    ensures
        lines_view(out@) == lines_from(src@, 0),
{
    let n = src.len();
    let mut out: Vec<Vec<u8>> = Vec::new();
    let mut pos: usize = 0;
    while pos < n
        invariant
            n == src@.len(),
            pos <= n,
            lines_view(out@) + lines_from(src@, pos as int) == lines_from(src@, 0),
        decreases n - pos,
    {
        let ghost pos0 = pos as int;
        // find the end of the current line
        let mut e: usize = pos;
        while e < n && *slice_index_get(src, e) != NL
            invariant
                pos <= e <= n,
                n == src@.len(),
                nl_at(src@, pos as int) == nl_at(src@, e as int),
            decreases n - e,
        {
            e = e + 1;
        }
        proof {
            assert(nl_at(src@, pos0) == e as int);
        }
        // copy the line bytes
        let mut line: Vec<u8> = Vec::new();
        let mut k: usize = pos;
        while k < e
            invariant
                pos <= k <= e <= n,
                n == src@.len(),
                line@ == src@.subrange(pos as int, k as int),
            decreases e - k,
        {
            line.push(*slice_index_get(src, k));
            proof {
                assert(line@ =~= src@.subrange(pos as int, k as int + 1));
            }
            k = k + 1;
        }
        let ghost prev = lines_view(out@);
        if e == n {
            out.push(line);
            proof {
                assert(lines_view(out@) =~= prev.push(line@));
                assert(lines_from(src@, pos0) == seq![src@.subrange(pos0, n as int)]);
                assert(lines_from(src@, n as int) =~= Seq::<Seq<u8>>::empty());
                assert(lines_view(out@) + lines_from(src@, n as int) =~= prev + lines_from(
                    src@,
                    pos0,
                ));
            }
            pos = n;
        } else {
            let ghost raw = src@.subrange(pos0, e as int);
            if line.len() > 0 && line[line.len() - 1] == CR {
                line.pop();
                proof {
                    assert(line@ =~= strip_cr(raw));
                }
            } else {
                proof {
                    assert(line@ =~= strip_cr(raw));
                }
            }
            out.push(line);
            pos = e + 1;
            proof {
                assert(lines_view(out@) =~= prev.push(strip_cr(raw)));
                assert(lines_from(src@, pos0) == seq![strip_cr(raw)] + lines_from(src@, pos as int));
                assert(lines_view(out@) + lines_from(src@, pos as int) =~= prev + lines_from(
                    src@,
                    pos0,
                ));
            }
        }
    }
    proof {
        assert(lines_view(out@) + lines_from(src@, pos as int) =~= lines_view(out@));
    }
    out
}

/// End of the token that starts at `i`: the first whitespace byte at or
/// after `i`, or the length if none.
pub open spec fn tok_end(s: Seq<u8>, i: int) -> int
    decreases s.len() - i,
{
    if i >= s.len() {
        s.len() as int
    } else if is_ws(s[i]) {
        i
    } else {
        tok_end(s, i + 1)
    }
}

/// The whitespace-separated tokens of `s` starting at position `i`.
pub open spec fn tokens_from(s: Seq<u8>, i: int) -> Seq<Seq<u8>>
    decreases s.len() - i,
    via tokens_from_dec
{
    if i >= s.len() {
        seq![]
    } else if is_ws(s[i]) {
        tokens_from(s, i + 1)
    } else {
        seq![s.subrange(i, tok_end(s, i))] + tokens_from(s, tok_end(s, i))
    }
}

#[via_fn]
proof fn tokens_from_dec(s: Seq<u8>, i: int) {
    if i < s.len() && !is_ws(s[i]) {
        lemma_tok_end_bounds(s, i);
    }
}

pub proof fn lemma_tok_end_bounds(s: Seq<u8>, i: int)
    requires
        i <= s.len(),
    ensures
        i <= tok_end(s, i) <= s.len(),
        i < s.len() && !is_ws(s[i]) ==> i < tok_end(s, i),
    decreases s.len() - i,
{
    if i < s.len() && !is_ws(s[i]) {
        lemma_tok_end_bounds(s, i + 1);
    }
}

pub open spec fn tokens_view(out: Seq<Vec<u8>>) -> Seq<Seq<u8>> {
    out.map_values(|t: Vec<u8>| t@)
}

/// Splits one line into its whitespace-separated tokens.
pub fn tokenize(line: &Vec<u8>) -> (out: Vec<Vec<u8>>)
    ensures
        tokens_view(out@) == tokens_from(line@, 0),
{
    let n = line.len();
    let mut out: Vec<Vec<u8>> = Vec::new();
    let mut pos: usize = 0;
    while pos < n
        invariant
            n == line@.len(),
            pos <= n,
            tokens_view(out@) + tokens_from(line@, pos as int) == tokens_from(line@, 0),
        decreases n - pos,
    {
        let b = line[pos];
        if b == 32 || (9 <= b && b <= 13) {
            proof {
                assert(tokens_from(line@, pos as int) == tokens_from(line@, pos as int + 1));
            }
            pos = pos + 1;
        } else {
            let ghost pos0 = pos as int;
            let mut e: usize = pos;
            while e < n && line[e] != 32 && (line[e] < 9 || line[e] > 13)
                invariant
                    pos <= e <= n,
                    n == line@.len(),
                    tok_end(line@, pos as int) == tok_end(line@, e as int),
                decreases n - e,
            {
                e = e + 1;
            }
            proof {
                lemma_tok_end_bounds(line@, pos0);
                assert(tok_end(line@, pos0) == e as int);
            }
            let mut tok: Vec<u8> = Vec::new();
            let mut k: usize = pos;
            while k < e
                invariant
                    pos <= k <= e <= n,
                    n == line@.len(),
                    tok@ == line@.subrange(pos as int, k as int),
                decreases e - k,
            {
                tok.push(line[k]);
                proof {
                    assert(tok@ =~= line@.subrange(pos as int, k as int + 1));
                }
                k = k + 1;
            }
            let ghost prev = tokens_view(out@);
            out.push(tok);
            pos = e;
            proof {
                assert(tokens_view(out@) =~= prev.push(line@.subrange(pos0, e as int)));
                assert(tokens_from(line@, pos0) == seq![line@.subrange(pos0, e as int)]
                    + tokens_from(line@, e as int));
                assert(tokens_view(out@) + tokens_from(line@, pos as int) =~= prev + tokens_from(
                    line@,
                    pos0,
                ));
            }
        }
    }
    proof {
        assert(tokens_view(out@) + tokens_from(line@, pos as int) =~= tokens_view(out@));
    }
    out
}

/// A digit of the given base: decimal, or hexadecimal in either case.
pub open spec fn radix_digit_ok(b: u8, hex: bool) -> bool {
    (48 <= b && b <= 57) || (hex && ((97 <= b && b <= 102) || (65 <= b && b <= 70)))
}

pub open spec fn radix_digit_val(b: u8) -> int {
    if 48 <= b && b <= 57 {
        b - 48
    } else if 97 <= b && b <= 102 {
        b - 87
    } else {
        b - 55
    }
}

pub open spec fn all_radix_digits(s: Seq<u8>, hex: bool) -> bool {
    forall|j: int| 0 <= j < s.len() ==> radix_digit_ok(s[j], hex)
}

/// Value of a digit string, most significant digit first.
pub open spec fn radix_val(s: Seq<u8>, hex: bool) -> int
    decreases s.len(),
{
    if s.len() == 0 {
        0
    } else {
        radix_val(s.drop_last(), hex) * (if hex {
            16int
        } else {
            10int
        }) + radix_digit_val(s.last())
    }
}

/// Numerals accept one optional leading plus sign.
pub open spec fn strip_plus(s: Seq<u8>) -> Seq<u8> {
    if s.len() > 0 && s[0] == 43 {
        s.drop_first()
    } else {
        s
    }
}

/// A numeral in the given base: optional plus sign, then at least one
/// digit, with a value that fits in 64 bits.
pub open spec fn spec_parse_radix(s: Seq<u8>, hex: bool) -> Option<u64> {
    let d = strip_plus(s);
    if d.len() > 0 && all_radix_digits(d, hex) && radix_val(d, hex) <= u64::MAX {
        Some(radix_val(d, hex) as u64)
    } else {
        None
    }
}

/// A numeral: `0x`-prefixed hexadecimal, or decimal.
pub open spec fn spec_parse_num(s: Seq<u8>) -> Option<u64> {
    if s.len() >= 2 && s[0] == 48 && s[1] == 120 {
        spec_parse_radix(s.skip(2), true)
    } else {
        spec_parse_radix(s, false)
    }
}

pub proof fn lemma_radix_val_nonneg(s: Seq<u8>, hex: bool)
    requires
        all_radix_digits(s, hex),
    ensures
        radix_val(s, hex) >= 0,
    decreases s.len(),
{
    if s.len() > 0 {
        assert(all_radix_digits(s.drop_last(), hex)) by {
            assert(forall|j: int|
                0 <= j < s.len() - 1 ==> s.drop_last()[j] == s[j] && radix_digit_ok(s[j], hex));
        }
        lemma_radix_val_nonneg(s.drop_last(), hex);
    }
}

/// Appending digits can only grow the value of a digit string.
pub proof fn lemma_radix_val_grows(s: Seq<u8>, j: int, hex: bool)
    requires
        all_radix_digits(s, hex),
        0 <= j <= s.len(),
    ensures
        radix_val(s.take(j), hex) <= radix_val(s, hex),
    decreases s.len() - j,
{
    if j < s.len() {
        lemma_radix_val_grows(s, j + 1, hex);
        assert(s.take(j + 1).drop_last() =~= s.take(j));
        assert(s.take(j + 1).last() == s[j]);
        assert(all_radix_digits(s.take(j), hex)) by {
            assert(forall|k: int|
                0 <= k < j ==> s.take(j)[k] == s[k] && radix_digit_ok(s[k], hex));
        }
        lemma_radix_val_nonneg(s.take(j), hex);
        assert(radix_val(s.take(j + 1), hex) >= radix_val(s.take(j), hex));
    } else {
        assert(s.take(j) =~= s);
    }
}

fn parse_radix(s: &[u8], from: usize, hex: bool) -> (r: Option<u64>)
    requires
        from <= s@.len(),
    ensures
        r == spec_parse_radix(s@.skip(from as int), hex),
{
    let ghost whole = s@.skip(from as int);
    let n = s.len();
    let mut i = from;
    if i < n && *slice_index_get(s, i) == 43 {
        i = i + 1;
    }
    let ghost d = s@.skip(i as int);
    proof {
        assert(d =~= strip_plus(whole));
    }
    if i == n {
        return None;
    }
    let base: u64 = if hex {
        16
    } else {
        10
    };
    let mut acc: u64 = 0;
    let mut j = i;
    while j < n
        invariant
            i <= j <= n,
            n == s@.len(),
            d == s@.skip(i as int),
            d == strip_plus(s@.skip(from as int)),
            from <= i,
            d.len() > 0,
            hex ==> base == 16,
            !hex ==> base == 10,
            all_radix_digits(d.take(j - i), hex),
            acc == radix_val(d.take(j - i), hex),
        decreases n - j,
    {
        let b = *slice_index_get(s, j);
        let ok = (48 <= b && b <= 57) || (hex && ((97 <= b && b <= 102) || (65 <= b && b <= 70)));
        if !ok {
            proof {
                assert(d[j - i] == b);
                assert(!all_radix_digits(d, hex));
            }
            return None;
        }
        let dv: u64 = if 48 <= b && b <= 57 {
            (b - 48) as u64
        } else if 97 <= b {
            (b - 87) as u64
        } else {
            (b - 55) as u64
        };
        let ghost val_next = radix_val(d.take(j + 1 - i), hex);
        proof {
            assert(d.take(j + 1 - i).drop_last() =~= d.take(j - i));
            assert(d.take(j + 1 - i).last() == d[j - i] && d[j - i] == b);
            assert(val_next == acc * base + dv);
            assert(all_radix_digits(d.take(j + 1 - i), hex)) by {
                assert(forall|k: int|
                    0 <= k < j + 1 - i ==> d.take(j + 1 - i)[k] == d[k]);
            }
        }
        let next = match acc.checked_mul(base) {
            Some(m) => m.checked_add(dv),
            None => None,
        };
        match next {
            Some(a) => {
                acc = a;
            },
            None => {
                // the value no longer fits in 64 bits, and appending more
                // digits can only grow it further
                proof {
                    assert(val_next > u64::MAX);
                    if all_radix_digits(d, hex) {
                        lemma_radix_val_grows(d, j + 1 - i, hex);
                        assert(radix_val(d, hex) > u64::MAX);
                    }
                }
                return None;
            },
        }
        j = j + 1;
    }
    proof {
        assert(d.take(n - i) =~= d);
    }
    Some(acc)
}

/// Reads a decimal numeral only, as the adjacency-list and header
/// formats ask.
pub fn parse_dec(txt: &[u8]) -> (r: Option<u64>)
    ensures
        r == spec_parse_radix(txt@, false),
{
    let r = parse_radix(txt, 0, false);
    proof {
        assert(txt@.skip(0) =~= txt@);
    }
    r
}

/// Reads a numeral: decimal such as `30`, or hexadecimal such as `0x1e`.
/// Returns nothing when the token is not a well-formed numeral or its
/// value does not fit in 64 bits.
pub fn parse_num(txt: &[u8]) -> (r: Option<u64>)
    ensures
        r == spec_parse_num(txt@),
{
    if txt.len() >= 2 && *slice_index_get(txt, 0) == 48 && *slice_index_get(txt, 1) == 120 {
        let r = parse_radix(txt, 2, true);
        proof {
            assert(txt@.skip(2) == txt@.skip(2int));
        }
        r
    } else {
        let r = parse_radix(txt, 0, false);
        proof {
            assert(txt@.skip(0) =~= txt@);
        }
        r
    }
}

} // verus!
