//! A canonical JSON byte codec for the on-disk state formats.
//!
//! The writer emits one fixed rendering (fixed field order, no
//! whitespace, lowercase hex escapes); the parser accepts exactly that
//! rendering.  Files are only ever produced by the writer, so nothing
//! is lost, and any file that does not follow the expected shape is
//! rejected instead of being read as garbage.

use vstd::prelude::*;

verus! {


/// The value of a parse result.
pub open spec fn got<A, B>(r: Option<(A, B)>) -> A {
    let t = r->0;
    t.0
}

/// The count of bytes a parse result consumed.
pub open spec fn used<A, B>(r: Option<(A, B)>) -> B {
    let t = r->0;
    t.1
}

// --- string escaping -------------------------------------------------

/// The lowercase hex digit for a value below 16.
pub open spec fn hex_char(n: u8) -> u8
    recommends
        n < 16,
{
    if n < 10 {
        (48 + n) as u8
    } else {
        (87 + n) as u8
    }
}

/// How one byte appears inside a JSON string: quote and backslash are
/// escaped, control bytes become `\u00` plus two hex digits, all else
/// stands as it is.
pub open spec fn esc_byte(b: u8) -> Seq<u8> {
    if b == 34 {
        seq![92u8, 34u8]
    } else if b == 92 {
        seq![92u8, 92u8]
    } else if b < 32 {
        seq![92u8, 117u8, 48u8, 48u8, hex_char(b / 16), hex_char(b % 16)]
    } else {
        seq![b]
    }
}

/// A byte string escaped for the inside of a JSON string.
pub open spec fn esc(s: Seq<u8>) -> Seq<u8>
    decreases s.len(),
{
    if s.len() == 0 {
        Seq::empty()
    } else {
        esc_byte(s[0]) + esc(s.skip(1))
    }
}

/// A JSON string: quote, escaped content, quote.
pub open spec fn jstr(s: Seq<u8>) -> Seq<u8> {
    seq![34u8] + esc(s) + seq![34u8]
}

pub proof fn lemma_esc_concat(a: Seq<u8>, b: Seq<u8>)
    ensures
        esc(a + b) == esc(a) + esc(b),
    decreases a.len(),
{
    if a.len() == 0 {
        assert(a + b =~= b);
        assert(esc(a) + esc(b) =~= esc(b));
    } else {
        assert((a + b).skip(1) =~= a.skip(1) + b);
        lemma_esc_concat(a.skip(1), b);
        assert(esc(a + b) =~= esc(a) + esc(b));
    }
}

fn hex_char_x(n: u8) -> (r: u8)
    requires
        n < 16,
    ensures
        r == hex_char(n),
{
    if n < 10 {
        48 + n
    } else {
        87 + n
    }
}

/// Append the JSON string rendering of `s` to `out`.
pub fn write_jstr(out: &mut Vec<u8>, s: &[u8])
    ensures
        final(out)@ == old(out)@ + jstr(s@),
{
    out.push(34);
    let n = s.len();
    let mut i: usize = 0;
    while i < n
        invariant
            n == s@.len(),
            i <= n,
            out@ == old(out)@ + seq![34u8] + esc(s@.take(i as int)),
        decreases n - i,
    {
        let b: u8 = s[i];
        if b == 34 {
            out.push(92);
            out.push(34);
        } else if b == 92 {
            out.push(92);
            out.push(92);
        } else if b < 32 {
            out.push(92);
            out.push(117);
            out.push(48);
            out.push(48);
            out.push(hex_char_x(b / 16));
            out.push(hex_char_x(b % 16));
        } else {
            out.push(b);
        }
        proof {
            let pre = s@.take(i as int);
            lemma_esc_concat(pre, seq![s@[i as int]]);
            assert(pre + seq![s@[i as int]] =~= s@.take(i + 1));
            assert(seq![s@[i as int]].skip(1) =~= Seq::<u8>::empty());
            assert(esc(Seq::<u8>::empty()) =~= Seq::<u8>::empty());
            assert(esc(seq![s@[i as int]]) == esc_byte(s@[i as int]) + esc(
                seq![s@[i as int]].skip(1),
            ));
            assert(esc(seq![s@[i as int]]) =~= esc_byte(s@[i as int]));
            assert(out@ =~= old(out)@ + seq![34u8] + esc(s@.take(i + 1)));
        }
        i += 1;
    }
    out.push(34);
    proof {
        assert(s@.take(n as int) =~= s@);
        assert(out@ =~= old(out)@ + jstr(s@));
    }
}

// --- string parsing ---------------------------------------------------

/// A lowercase hex digit byte.
pub open spec fn is_lhex(b: u8) -> bool {
    (48 <= b <= 57) || (97 <= b <= 102)
}

/// The value of a lowercase hex digit byte.
pub open spec fn lhex_val(b: u8) -> u8
    recommends
        is_lhex(b),
{
    if b <= 57 {
        (b - 48) as u8
    } else {
        (b - 87) as u8
    }
}

/// Parse the escaped content of a JSON string up to and including the
/// closing quote; yields the content and the bytes consumed.
pub open spec fn pjstr_body(inp: Seq<u8>) -> Option<(Seq<u8>, int)>
    decreases inp.len(),
{
    if inp.len() == 0 {
        None
    } else if inp[0] == 34 {
        Some((Seq::empty(), 1))
    } else if inp[0] == 92 {
        if inp.len() < 2 {
            None
        } else if inp[1] == 34 || inp[1] == 92 {
            match pjstr_body(inp.skip(2)) {
                Some(t) => Some((seq![inp[1]] + t.0, t.1 + 2)),
                None => None,
            }
        } else if inp[1] == 117 {
            if inp.len() >= 6 && inp[2] == 48 && inp[3] == 48 && is_lhex(inp[4]) && is_lhex(
                inp[5],
            ) && lhex_val(inp[4]) * 16 + lhex_val(inp[5]) < 32 {
                match pjstr_body(inp.skip(6)) {
                    Some(t) => Some(
                        (seq![(lhex_val(inp[4]) * 16 + lhex_val(inp[5])) as u8] + t.0, t.1 + 6),
                    ),
                    None => None,
                }
            } else {
                None
            }
        } else {
            None
        }
    } else if inp[0] < 32 {
        None
    } else {
        match pjstr_body(inp.skip(1)) {
            Some(t) => Some((seq![inp[0]] + t.0, t.1 + 1)),
            None => None,
        }
    }
}

/// Parse a complete JSON string (opening quote included).
pub open spec fn pjstr(inp: Seq<u8>) -> Option<(Seq<u8>, int)> {
    if inp.len() > 0 && inp[0] == 34 {
        match pjstr_body(inp.skip(1)) {
            Some(t) => Some((t.0, t.1 + 1)),
            None => None,
        }
    } else {
        None
    }
}

pub proof fn lemma_pjstr_body_bound(inp: Seq<u8>)
    ensures
        pjstr_body(inp) is Some ==> 1 <= used(pjstr_body(inp)) <= inp.len(),
    decreases inp.len(),
{
    if inp.len() == 0 || inp[0] == 34 {
    } else if inp[0] == 92 {
        if inp.len() >= 2 && (inp[1] == 34 || inp[1] == 92) {
            lemma_pjstr_body_bound(inp.skip(2));
        } else if inp.len() >= 6 && inp[1] == 117 {
            lemma_pjstr_body_bound(inp.skip(6));
        }
    } else {
        lemma_pjstr_body_bound(inp.skip(1));
    }
}

proof fn lemma_hex_char_val(n: u8)
    requires
        n < 16,
    ensures
        is_lhex(hex_char(n)),
        lhex_val(hex_char(n)) == n,
        hex_char(n) != 34 && hex_char(n) != 92 && hex_char(n) >= 32,
{
}

/// The parser inverts the writer: the escaped rendering of `s`,
/// closing quote and anything after it, parses back to exactly `s`.
pub proof fn lemma_pjstr_body_render(s: Seq<u8>, rest: Seq<u8>)
    ensures
        pjstr_body(esc(s) + seq![34u8] + rest) == Some((s, esc(s).len() + 1int)),
    decreases s.len(),
{
    let inp = esc(s) + seq![34u8] + rest;
    if s.len() == 0 {
        assert(esc(s) =~= Seq::<u8>::empty());
        assert(inp[0] == 34);
        assert(s =~= Seq::<u8>::empty());
    } else {
        let b = s[0];
        let tail = s.skip(1);
        lemma_pjstr_body_render(tail, rest);
        assert(esc(s) == esc_byte(b) + esc(tail));
        if b == 34 {
            assert(inp =~= seq![92u8, 34u8] + (esc(tail) + seq![34u8] + rest));
            assert(inp.skip(2) =~= esc(tail) + seq![34u8] + rest);
            assert(seq![inp[1]] + tail =~= s);
        } else if b == 92 {
            assert(inp =~= seq![92u8, 92u8] + (esc(tail) + seq![34u8] + rest));
            assert(inp.skip(2) =~= esc(tail) + seq![34u8] + rest);
            assert(seq![inp[1]] + tail =~= s);
        } else if b < 32 {
            lemma_hex_char_val(b / 16);
            lemma_hex_char_val(b % 16);
            assert(inp =~= seq![92u8, 117u8, 48u8, 48u8, hex_char(b / 16), hex_char(b % 16)] + (
            esc(tail) + seq![34u8] + rest));
            assert(inp.skip(6) =~= esc(tail) + seq![34u8] + rest);
            assert(lhex_val(inp[4]) * 16 + lhex_val(inp[5]) == (b / 16) * 16 + (b % 16));
            assert((b / 16) * 16 + (b % 16) == b);
            assert(seq![(lhex_val(inp[4]) * 16 + lhex_val(inp[5])) as u8] + tail =~= s);
        } else {
            assert(inp =~= seq![b] + (esc(tail) + seq![34u8] + rest));
            assert(inp.skip(1) =~= esc(tail) + seq![34u8] + rest);
            assert(seq![inp[0]] + tail =~= s);
        }
    }
}

pub proof fn lemma_pjstr_render(s: Seq<u8>, rest: Seq<u8>)
    ensures
        pjstr(jstr(s) + rest) == Some((s, jstr(s).len() as int)),
{
    let inp = jstr(s) + rest;
    assert(inp[0] == 34);
    assert(inp.skip(1) =~= esc(s) + seq![34u8] + rest);
    lemma_pjstr_body_render(s, rest);
}

/// Parse a JSON string starting at `pos`; mirrors `pjstr`.
pub fn parse_jstr(inp: &[u8], pos: usize) -> (r: Option<(Vec<u8>, usize)>)
    requires
        pos <= inp@.len(),
    ensures
        r is None ==> pjstr(inp@.skip(pos as int)) is None,
        r is Some ==> pjstr(inp@.skip(pos as int)) is Some
            && got(r)@ == got(pjstr(inp@.skip(pos as int)))
            && used(r) == pos + used(pjstr(inp@.skip(pos as int)))
            && pos < used(r) <= inp@.len(),
{
    let ghost whole = inp@.skip(pos as int);
    if pos >= inp.len() || inp[pos] != 34 {
        return None;
    }
    let ghost body0 = inp@.skip(pos + 1);
    let mut acc: Vec<u8> = Vec::new();
    let mut p: usize = pos + 1;
    loop
        invariant
            pos + 1 <= p <= inp@.len(),
            body0 == inp@.skip(pos + 1),
            whole == inp@.skip(pos as int),
            whole.len() > 0 && whole[0] == 34,
            whole.skip(1) == body0,
            pjstr_body(body0) == match pjstr_body(inp@.skip(p as int)) {
                Some(t) => Some::<(Seq<u8>, int)>((acc@ + t.0, t.1 + p - (pos + 1))),
                None => None::<(Seq<u8>, int)>,
            },
        decreases inp@.len() - p,
    {
        let ghost region = inp@.skip(p as int);
        if p >= inp.len() {
            assert(region.len() == 0);
            assert(pjstr_body(body0) is None);
            return None;
        }
        let b: u8 = inp[p];
        assert(region[0] == b);
        if b == 34 {
            assert(pjstr_body(region) == Some((Seq::<u8>::empty(), 1int)));
            assert(acc@ + Seq::<u8>::empty() =~= acc@);
            proof {
                lemma_pjstr_body_bound(body0);
            }
            return Some((acc, p + 1));
        } else if b == 92 {
            if inp.len() - p < 2 {
                assert(region.len() < 2);
                assert(pjstr_body(body0) is None);
                return None;
            }
            let b2: u8 = inp[p + 1];
            assert(region[1] == b2);
            if b2 == 34 || b2 == 92 {
                acc.push(b2);
                proof {
                    assert(inp@.skip(p + 2) =~= region.skip(2));
                    assert forall|t0: Seq<u8>, t1: int|
                        pjstr_body(region.skip(2)) == Some::<(Seq<u8>, int)>((t0, t1)) implies (
                    acc@ + t0 == acc@.drop_last() + (seq![b2] + t0)) by {
                        assert(acc@ =~= acc@.drop_last() + seq![b2]);
                        assert(acc@ + t0 =~= (acc@.drop_last() + seq![b2]) + t0);
                        assert((acc@.drop_last() + seq![b2]) + t0 =~= acc@.drop_last() + (
                        seq![b2] + t0));
                    }
                }
                p = p + 2;
            } else if b2 == 117 {
                if inp.len() - p < 6 {
                    assert(region.len() < 6);
                    assert(pjstr_body(body0) is None);
                    return None;
                }
                let h0: u8 = inp[p + 2];
                let h1: u8 = inp[p + 3];
                let h2: u8 = inp[p + 4];
                let h3: u8 = inp[p + 5];
                assert(region[2] == h0 && region[3] == h1 && region[4] == h2 && region[5] == h3);
                let ok2 = (48 <= h2 && h2 <= 57) || (97 <= h2 && h2 <= 102);
                let ok3 = (48 <= h3 && h3 <= 57) || (97 <= h3 && h3 <= 102);
                if h0 != 48 || h1 != 48 || !ok2 || !ok3 {
                    assert(pjstr_body(region) is None);
                    assert(pjstr_body(body0) is None);
                    return None;
                }
                let v2: u8 = if h2 <= 57 {
                    h2 - 48
                } else {
                    h2 - 87
                };
                let v3: u8 = if h3 <= 57 {
                    h3 - 48
                } else {
                    h3 - 87
                };
                if v2 >= 2 {
                    assert(lhex_val(region[4]) * 16 + lhex_val(region[5]) >= 32);
                    assert(pjstr_body(region) is None);
                    assert(pjstr_body(body0) is None);
                    return None;
                }
                let v: u8 = v2 * 16 + v3;
                acc.push(v);
                proof {
                    assert(inp@.skip(p + 6) =~= region.skip(6));
                    assert forall|t0: Seq<u8>, t1: int|
                        pjstr_body(region.skip(6)) == Some::<(Seq<u8>, int)>((t0, t1)) implies (
                    acc@ + t0 == acc@.drop_last() + (seq![v] + t0)) by {
                        assert(acc@ =~= acc@.drop_last() + seq![v]);
                        assert(acc@ + t0 =~= (acc@.drop_last() + seq![v]) + t0);
                        assert((acc@.drop_last() + seq![v]) + t0 =~= acc@.drop_last() + (
                        seq![v] + t0));
                    }
                }
                p = p + 6;
            } else {
                assert(pjstr_body(region) is None);
                assert(pjstr_body(body0) is None);
                return None;
            }
        } else if b < 32 {
            assert(pjstr_body(region) is None);
            assert(pjstr_body(body0) is None);
            return None;
        } else {
            acc.push(b);
            proof {
                assert(inp@.skip(p + 1) =~= region.skip(1));
                assert forall|t0: Seq<u8>, t1: int|
                    pjstr_body(region.skip(1)) == Some::<(Seq<u8>, int)>((t0, t1)) implies (acc@
                    + t0 == acc@.drop_last() + (seq![b] + t0)) by {
                    assert(acc@ =~= acc@.drop_last() + seq![b]);
                    assert(acc@ + t0 =~= (acc@.drop_last() + seq![b]) + t0);
                    assert((acc@.drop_last() + seq![b]) + t0 =~= acc@.drop_last() + (seq![b] + t0));
                }
            }
            p = p + 1;
        }
    }
}

// --- fixed literals ---------------------------------------------------

/// The input begins with the given literal bytes.
pub open spec fn plit(inp: Seq<u8>, lit: Seq<u8>) -> bool {
    lit.len() <= inp.len() && inp.take(lit.len() as int) == lit
}

/// Append literal bytes to `out`.
pub fn write_lit(out: &mut Vec<u8>, lit: &[u8])
    ensures
        final(out)@ == old(out)@ + lit@,
{
    let n = lit.len();
    let mut i: usize = 0;
    while i < n
        invariant
            n == lit@.len(),
            i <= n,
            out@ == old(out)@ + lit@.take(i as int),
        decreases n - i,
    {
        out.push(lit[i]);
        proof {
            assert(lit@.take(i as int).push(lit@[i as int]) =~= lit@.take(i + 1));
        }
        i += 1;
    }
    proof {
        assert(lit@.take(n as int) =~= lit@);
    }
}

/// Expect the literal at `pos`; yields the position after it.
pub fn parse_lit(inp: &[u8], pos: usize, lit: &[u8]) -> (r: Option<usize>)
    requires
        pos <= inp@.len(),
    ensures
        r is Some ==> plit(inp@.skip(pos as int), lit@) && r->0 == pos + lit@.len() && r->0
            <= inp@.len(),
        r is None ==> !plit(inp@.skip(pos as int), lit@),
{
    let n = lit.len();
    if inp.len() - pos < n {
        return None;
    }
    let mut i: usize = 0;
    while i < n
        invariant
            n == lit@.len(),
            pos + n <= inp@.len(),
            inp@.len() <= usize::MAX,
            i <= n,
            forall|j: int| 0 <= j < i ==> inp@.skip(pos as int)[j] == lit@[j],
        decreases n - i,
    {
        if inp[pos + i] != lit[i] {
            proof {
                assert(inp@.skip(pos as int)[i as int] != lit@[i as int]);
                assert(!plit(inp@.skip(pos as int), lit@));
            }
            return None;
        }
        i += 1;
    }
    proof {
        assert(inp@.skip(pos as int).take(n as int) =~= lit@);
    }
    Some(pos + n)
}

pub proof fn lemma_plit_render(lit: Seq<u8>, rest: Seq<u8>)
    ensures
        plit(lit + rest, lit),
{
    assert((lit + rest).take(lit.len() as int) =~= lit);
}

// --- decimal numbers --------------------------------------------------

/// A decimal digit byte.
pub open spec fn is_digit(b: u8) -> bool {
    48 <= b <= 57
}

/// The decimal rendering of a number, most significant digit first.
pub open spec fn dec_of(n: nat) -> Seq<u8>
    decreases n,
{
    if n < 10 {
        seq![(48 + n) as u8]
    } else {
        dec_of(n / 10) + seq![(48 + (n % 10)) as u8]
    }
}

/// Fold decimal digits left to right from an accumulator.
pub open spec fn pdec_loop(inp: Seq<u8>, acc: nat, k: int) -> (nat, int)
    decreases inp.len(),
{
    if inp.len() > 0 && is_digit(inp[0]) {
        pdec_loop(inp.skip(1), acc * 10 + (inp[0] - 48) as nat, k + 1)
    } else {
        (acc, k)
    }
}

/// Parse a canonical decimal number: at least one digit, no leading
/// zero except the number zero itself.
pub open spec fn pdec(inp: Seq<u8>) -> Option<(nat, int)> {
    if inp.len() == 0 || !is_digit(inp[0]) {
        None
    } else if inp[0] == 48 {
        Some((0, 1))
    } else {
        Some(pdec_loop(inp, 0, 0))
    }
}

pub open spec fn pow10(k: nat) -> nat
    decreases k,
{
    if k == 0 {
        1
    } else {
        10 * pow10((k - 1) as nat)
    }
}

proof fn lemma_pdec_loop_lower(inp: Seq<u8>, acc: nat, k: int)
    ensures
        pdec_loop(inp, acc, k).0 >= acc,
        pdec_loop(inp, acc, k).1 >= k,
    decreases inp.len(),
{
    if inp.len() > 0 && is_digit(inp[0]) {
        lemma_pdec_loop_lower(inp.skip(1), acc * 10 + (inp[0] - 48) as nat, k + 1);
    }
}

proof fn lemma_pdec_loop_render(n: nat, rest: Seq<u8>, acc: nat, k: int)
    ensures
        pdec_loop(dec_of(n) + rest, acc, k) == pdec_loop(
            rest,
            acc * pow10(dec_of(n).len() as nat) + n,
            k + dec_of(n).len(),
        ),
    decreases n,
{
    let inp = dec_of(n) + rest;
    if n < 10 {
        assert(inp[0] == 48 + n);
        assert(inp.skip(1) =~= rest);
        assert(pow10(0) == 1);
        assert(pow10(1) == 10);
        assert(acc * 10 + n == acc * pow10(1) + n);
    } else {
        let d = (48 + (n % 10)) as u8;
        let l1 = dec_of(n / 10).len() as nat;
        assert(inp =~= dec_of(n / 10) + (seq![d] + rest));
        lemma_pdec_loop_render(n / 10, seq![d] + rest, acc, k);
        let mid = acc * pow10(l1) + n / 10;
        assert((seq![d] + rest)[0] == d);
        assert((seq![d] + rest).skip(1) =~= rest);
        assert(pdec_loop(seq![d] + rest, mid, k + l1) == pdec_loop(
            rest,
            mid * 10 + (n % 10),
            k + l1 + 1,
        ));
        assert(mid * 10 + (n % 10) == acc * pow10((l1 + 1) as nat) + n) by (nonlinear_arith)
            requires
                mid == acc * pow10(l1) + n / 10,
                pow10((l1 + 1) as nat) == 10 * pow10(l1),
                n == 10 * (n / 10) + n % 10,
        {}
        assert(pow10((l1 + 1) as nat) == 10 * pow10(l1));
        assert(dec_of(n).len() == l1 + 1);
    }
}

proof fn lemma_dec_of_first(n: nat)
    ensures
        dec_of(n).len() >= 1,
        is_digit(dec_of(n)[0]),
        n > 0 ==> dec_of(n)[0] != 48,
    decreases n,
{
    if n >= 10 {
        lemma_dec_of_first(n / 10);
        assert(dec_of(n)[0] == dec_of(n / 10)[0]);
    }
}

/// The parser inverts the writer on decimal numbers, as long as what
/// follows is not itself a digit.
pub proof fn lemma_pdec_render(n: nat, rest: Seq<u8>)
    requires
        rest.len() == 0 || !is_digit(rest[0]),
    ensures
        pdec(dec_of(n) + rest) == Some((n, dec_of(n).len() as int)),
{
    let inp = dec_of(n) + rest;
    lemma_dec_of_first(n);
    assert(inp[0] == dec_of(n)[0]);
    if n == 0 {
        assert(dec_of(0) =~= seq![48u8]);
        assert(inp[0] == 48);
    } else {
        assert(inp[0] != 48);
        lemma_pdec_loop_render(n, rest, 0, 0);
        assert(pdec_loop(rest, 0 * pow10(dec_of(n).len() as nat) + n, dec_of(n).len() as int)
            == (n, dec_of(n).len() as int));
    }
}

/// Append the decimal rendering of `n` to `out`.
pub fn write_dec_u16(out: &mut Vec<u8>, n: u16)
    ensures
        final(out)@ == old(out)@ + dec_of(n as nat),
    decreases n,
{
    if n < 10 {
        out.push(48 + n as u8);
        proof {
            assert(old(out)@.push((48 + n as nat) as u8) =~= old(out)@ + dec_of(n as nat));
        }
    } else {
        write_dec_u16(out, n / 10);
        out.push(48 + (n % 10) as u8);
        proof {
            assert(old(out)@ + dec_of((n / 10) as nat) + seq![(48 + (n as nat % 10)) as u8]
                =~= old(out)@ + dec_of(n as nat));
        }
    }
}

/// Parse a canonical decimal number that fits a `u16`; mirrors `pdec`
/// with the `u16` bound.
pub fn parse_dec_u16(inp: &[u8], pos: usize) -> (r: Option<(u16, usize)>)
    requires
        pos <= inp@.len(),
    ensures
        r is Some <==> pdec(inp@.skip(pos as int)) is Some && got(pdec(inp@.skip(pos as int)))
            < 65536,
        r is Some ==> got(r) == got(pdec(inp@.skip(pos as int))) && used(r) == pos + used(pdec(
            inp@.skip(pos as int),
        )) && pos < used(r) <= inp@.len(),
{
    let ghost whole = inp@.skip(pos as int);
    if pos >= inp.len() {
        return None;
    }
    let first: u8 = inp[pos];
    assert(whole[0] == first);
    if !(48 <= first && first <= 57) {
        return None;
    }
    if first == 48 {
        return Some((0, pos + 1));
    }
    let mut acc: u32 = 0;
    let mut p: usize = pos;
    loop
        invariant
            pos <= p <= inp@.len(),
            whole == inp@.skip(pos as int),
            whole.len() > 0 && is_digit(whole[0]) && whole[0] != 48,
            acc <= 65535,
            pdec_loop(whole, 0, 0) == pdec_loop(inp@.skip(p as int), acc as nat, p - pos),
        decreases inp@.len() - p,
    {
        let ghost region = inp@.skip(p as int);
        if p >= inp.len() {
            assert(region.len() == 0);
            assert(pdec_loop(whole, 0, 0) == (acc as nat, p - pos));
            return Some((acc as u16, p));
        }
        let b: u8 = inp[p];
        assert(region[0] == b);
        if !(48 <= b && b <= 57) {
            assert(pdec_loop(whole, 0, 0) == (acc as nat, p - pos));
            return Some((acc as u16, p));
        }
        proof {
            assert(inp@.skip(p + 1) =~= region.skip(1));
        }
        let next: u32 = acc * 10 + (b - 48) as u32;
        if next > 65535 {
            proof {
                lemma_pdec_loop_lower(region.skip(1), next as nat, p + 1 - pos);
            }
            return None;
        }
        acc = next;
        p = p + 1;
    }
}

// --- booleans ----------------------------------------------------------

/// The JSON rendering of a boolean.
pub open spec fn rbool(b: bool) -> Seq<u8> {
    if b {
        seq![116u8, 114u8, 117u8, 101u8]
    } else {
        seq![102u8, 97u8, 108u8, 115u8, 101u8]
    }
}

/// Parse a JSON boolean.
pub open spec fn pbool(inp: Seq<u8>) -> Option<(bool, int)> {
    if plit(inp, rbool(true)) {
        Some((true, 4))
    } else if plit(inp, rbool(false)) {
        Some((false, 5))
    } else {
        None
    }
}

/// Append the rendering of a boolean to `out`.
pub fn write_bool(out: &mut Vec<u8>, b: bool)
    ensures
        final(out)@ == old(out)@ + rbool(b),
{
    if b {
        out.push(116);
        out.push(114);
        out.push(117);
        out.push(101);
        proof {
            assert(out@ =~= old(out)@ + rbool(true));
        }
    } else {
        out.push(102);
        out.push(97);
        out.push(108);
        out.push(115);
        out.push(101);
        proof {
            assert(out@ =~= old(out)@ + rbool(false));
        }
    }
}

/// Parse a boolean at `pos`; mirrors `pbool`.
pub fn parse_bool(inp: &[u8], pos: usize) -> (r: Option<(bool, usize)>)
    requires
        pos <= inp@.len(),
    ensures
        r is None ==> pbool(inp@.skip(pos as int)) is None,
        r is Some ==> pbool(inp@.skip(pos as int)) is Some
            && got(r) == got(pbool(inp@.skip(pos as int)))
            && used(r) == pos + used(pbool(inp@.skip(pos as int)))
            && pos < used(r) <= inp@.len(),
{
    let t_lit: [u8; 4] = [116, 114, 117, 101];
    let f_lit: [u8; 5] = [102, 97, 108, 115, 101];
    proof {
        assert(t_lit@ =~= rbool(true));
        assert(f_lit@ =~= rbool(false));
    }
    match parse_lit(inp, pos, t_lit.as_slice()) {
        Some(p2) => Some((true, p2)),
        None => {
            match parse_lit(inp, pos, f_lit.as_slice()) {
                Some(p2) => Some((false, p2)),
                None => None,
            }
        },
    }
}

pub proof fn lemma_pbool_render(b: bool, rest: Seq<u8>)
    ensures
        pbool(rbool(b) + rest) == Some((b, rbool(b).len() as int)),
{
    lemma_plit_render(rbool(b), rest);
    if !b {
        assert((rbool(false) + rest)[0] == 102);
        assert(!plit(rbool(false) + rest, rbool(true)));
    }
}

} // verus!
