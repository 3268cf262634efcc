//! Human-readable byte counts for the pipeline's reporting: a size is
//! shown in GiB, MiB or KiB with two rounded decimals, or in plain bytes.

use vstd::prelude::*;

verus! {

pub const KB: usize = 1024;

pub const MB: usize = 1048576;

pub const GB: usize = 1073741824;

/// Decimal digits of `n`, most significant first.
pub open spec fn dec_digits(n: nat) -> Seq<u8>
    decreases n,
{
    if n < 10 {
        seq![(n + 48) as u8]
    } else {
        dec_digits(n / 10) + seq![(n % 10 + 48) as u8]
    }
}

/// `n * 100 / unit`, rounded to the nearest integer, ties to even.
pub open spec fn hundredths(n: nat, unit: nat) -> nat {
    let q = n * 100 / unit;
    let r = n * 100 % unit;
    if 2 * r > unit || (2 * r == unit && q % 2 == 1) {
        q + 1
    } else {
        q
    }
}

/// A quantity in hundredths, written with two decimals: `12.05`.
pub open spec fn fixed2(h: nat) -> Seq<u8> {
    dec_digits(h / 100) + seq![46u8, (h % 100 / 10 + 48) as u8, (h % 10 + 48) as u8]
}

/// ` bytes`
pub open spec fn lit_bytes() -> Seq<u8> {
    seq![32u8, 98u8, 121u8, 116u8, 101u8, 115u8]
}

/// `<unit> (<n> bytes)`, the parenthesized exact count after a unit name.
pub open spec fn lit_tail(n: nat) -> Seq<u8> {
    seq![32u8, 40u8] + dec_digits(n) + lit_bytes() + seq![41u8]
}

/// What `fmt_bytes` prints, as bytes.
pub open spec fn spec_fmt_bytes(n: nat) -> Seq<u8> {
    if n >= GB {
        fixed2(hundredths(n, GB as nat)) + seq![32u8, 71u8, 105u8, 66u8] + lit_tail(n)
    } else if n >= MB {
        fixed2(hundredths(n, MB as nat)) + seq![32u8, 77u8, 105u8, 66u8] + lit_tail(n)
    } else if n >= KB {
        fixed2(hundredths(n, KB as nat)) + seq![32u8, 75u8, 105u8, 66u8] + lit_tail(n)
    } else {
        dec_digits(n) + lit_bytes()
    }
}

pub proof fn lemma_dec_digits_ascii(n: nat)
    ensures
        forall|i: int| 0 <= i < dec_digits(n).len() ==> 48 <= #[trigger] dec_digits(n)[i] <= 57,
    decreases n,
{
    if n >= 10 {
        lemma_dec_digits_ascii(n / 10);
        assert(forall|i: int|
            0 <= i < dec_digits(n / 10).len() ==> dec_digits(n)[i] == dec_digits(n / 10)[i]);
    }
}

/// Appends the decimal digits of `n`.
fn push_dec(n: u64, out: &mut Vec<u8>)
    ensures
        final(out)@ == old(out)@ + dec_digits(n as nat),
        (forall|i: int| 0 <= i < old(out)@.len() ==> old(out)@[i] < 0x80) ==> (forall|i: int|
            0 <= i < final(out)@.len() ==> final(out)@[i] < 0x80),
    decreases n,
{
    if n < 10 {
        out.push((n + 48) as u8);
        proof {
            assert(out@ =~= old(out)@ + dec_digits(n as nat));
        }
    } else {
        let ghost mid = out@ + dec_digits((n / 10) as nat);
        push_dec(n / 10, out);
        out.push((n % 10 + 48) as u8);
        proof {
            assert(out@ =~= old(out)@ + dec_digits(n as nat));
        }
    }
}

/// Relies on String::from_utf8: bytes below 0x80 are valid UTF-8 and
/// decode to one character each, with the same code points.
#[verifier::external_body]
fn ascii_to_string(v: Vec<u8>) -> (r: String)
    requires
        forall|i: int| 0 <= i < v@.len() ==> v@[i] < 0x80,
    ensures
        r@.len() == v@.len(),
        forall|i: int| 0 <= i < v@.len() ==> #[trigger] r@[i] as u32 == v@[i] as u32,
{
    String::from_utf8(v).unwrap_or_default()
}

/// Appends two decimal digits and a point: rounded hundredths after the
/// whole part.
fn push_fixed2(h: u64, out: &mut Vec<u8>)
    ensures
        final(out)@ == old(out)@ + fixed2(h as nat),
        (forall|i: int| 0 <= i < old(out)@.len() ==> old(out)@[i] < 0x80) ==> (forall|i: int|
            0 <= i < final(out)@.len() ==> final(out)@[i] < 0x80),
{
    push_dec(h / 100, out);
    out.push(46);
    out.push((h % 100 / 10 + 48) as u8);
    out.push((h % 10 + 48) as u8);
    proof {
        assert(out@ =~= old(out)@ + fixed2(h as nat));
    }
}

fn push_tail(n: u64, out: &mut Vec<u8>)
    ensures
        final(out)@ == old(out)@ + lit_tail(n as nat),
        (forall|i: int| 0 <= i < old(out)@.len() ==> old(out)@[i] < 0x80) ==> (forall|i: int|
            0 <= i < final(out)@.len() ==> final(out)@[i] < 0x80),
{
    out.push(32);
    out.push(40);
    push_dec(n, out);
    out.push(32);
    out.push(98);
    out.push(121);
    out.push(116);
    out.push(101);
    out.push(115);
    out.push(41);
    proof {
        assert(out@ =~= old(out)@ + lit_tail(n as nat));
    }
}

/// Rounds `n * 100 / unit` to the nearest integer, ties to even.
fn round_hundredths(n: usize, unit: usize) -> (h: u64)
    requires
        1024 <= unit <= 0x1_0000_0000,
    ensures
        h == hundredths(n as nat, unit as nat),
{
    let t: u128 = n as u128 * 100;
    let u: u128 = unit as u128;
    let q: u128 = t / u;
    let r: u128 = t % u;
    proof {
        assert(t <= 0xFFFF_FFFF_FFFF_FFFF * 100) by (nonlinear_arith)
            requires
                n <= 0xFFFF_FFFF_FFFF_FFFF,
                t == n as int * 100,
        ;
        assert(q * u <= t) by (nonlinear_arith)
            requires
                u >= 1,
                q == t as int / u as int,
                t >= 0,
        ;
        assert(q * 1024 <= q * u) by (nonlinear_arith)
            requires
                q >= 0,
                u >= 1024,
        ;
        assert(q <= 0x6400_0000_0000_0000);
    }
    let up: bool = 2 * r > u || (2 * r == u && q % 2 == 1);
    if up {
        (q + 1) as u64
    } else {
        q as u64
    }
}

/// Formats a byte count the way the pipeline reports proof sizes:
/// `2.50 MiB (2621440 bytes)`, or `512 bytes` below one KiB.
#[verifier::rlimit(30)]
pub fn fmt_bytes(n: usize) -> (s: String)
    ensures
        s@.len() == spec_fmt_bytes(n as nat).len(),
        forall|i: int|
            0 <= i < s@.len() ==> #[trigger] s@[i] as u32 == spec_fmt_bytes(n as nat)[i] as u32,
{
    let mut out: Vec<u8> = Vec::new();
    if n >= GB {
        let h = round_hundredths(n, GB);
        push_fixed2(h, &mut out);
        out.push(32);
        out.push(71);
        out.push(105);
        out.push(66);
        push_tail(n as u64, &mut out);
    } else if n >= MB {
        let h = round_hundredths(n, MB);
        push_fixed2(h, &mut out);
        out.push(32);
        out.push(77);
        out.push(105);
        out.push(66);
        push_tail(n as u64, &mut out);
    } else if n >= KB {
        let h = round_hundredths(n, KB);
        push_fixed2(h, &mut out);
        out.push(32);
        out.push(75);
        out.push(105);
        out.push(66);
        push_tail(n as u64, &mut out);
    } else {
        push_dec(n as u64, &mut out);
        out.push(32);
        out.push(98);
        out.push(121);
        out.push(116);
        out.push(101);
        out.push(115);
    }
    proof {
        assert(out@ =~= spec_fmt_bytes(n as nat));
        assert(forall|i: int| 0 <= i < out@.len() ==> out@[i] < 0x80);
    }
    ascii_to_string(out)
}

} // verus!
