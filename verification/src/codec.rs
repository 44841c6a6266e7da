//! Renderers and parsers for the two on-disk formats: the encrypted
//! envelope and the plaintext persisted state.
//!
//! Every `render_*` spec function gives the one canonical byte
//! rendering; every `p*` spec function parses exactly that rendering;
//! the `lemma_*_render` proofs say that parsing inverts rendering.  The
//! executable writers and parsers mirror the spec functions.

use vstd::prelude::*;

use crate::crypto::EncryptedData;
use crate::json::{
    dec_of, got, is_digit, jstr, lemma_pbool_render, lemma_pdec_render, lemma_pjstr_render,
    parse_bool, parse_dec_u16, parse_jstr, parse_lit, pbool, pdec, pjstr, plit, rbool, used,
    write_bool, write_dec_u16, write_jstr, write_lit,
};
use crate::state::{
    payload_view, ConfigV, NoteV, NotificationEvent, OpV, PendingOperation, PersistedState,
    SessV, SidecarConfig, StateV, TerminalSession,
};
use vstd::utf8::{
    decode_utf8, encode_utf8, encode_utf8_decode_utf8, encode_utf8_valid_utf8, valid_utf8,
};

verus! {

/// Relies on std's `String::from_utf8`: it accepts exactly valid UTF-8
/// and returns the string whose byte encoding is the input.
#[verifier::external_body]
fn string_from_utf8(bytes: Vec<u8>) -> (r: Option<String>)
    ensures
        r is Some ==> encode_utf8(r->0@) == bytes@,
        valid_utf8(bytes@) ==> r is Some,
{
    String::from_utf8(bytes).ok()
}

// --- string fields ------------------------------------------------------

/// The JSON rendering of a text field: its UTF-8 bytes as a JSON string.
pub open spec fn rstr(s: Seq<char>) -> Seq<u8> {
    jstr(encode_utf8(s))
}

/// Parse a JSON string into text; the bytes must be valid UTF-8.
pub open spec fn pfstr(inp: Seq<u8>) -> Option<(Seq<char>, int)> {
    match pjstr(inp) {
        Some(t) => if valid_utf8(t.0) {
            Some((decode_utf8(t.0), t.1))
        } else {
            None
        },
        None => None,
    }
}

/// Append the rendering of a text field to `out`.
pub fn write_fstr(out: &mut Vec<u8>, s: &str)
    ensures
        final(out)@ == old(out)@ + rstr(s@),
{
    write_jstr(out, s.as_bytes());
}

/// Parse a text field at `pos`; mirrors `pfstr`.
pub fn parse_fstr(inp: &[u8], pos: usize) -> (r: Option<(String, usize)>)
    requires
        pos <= inp@.len(),
    ensures
        r is None ==> pfstr(inp@.skip(pos as int)) is None,
        r is Some ==> pfstr(inp@.skip(pos as int)) is Some
            && got(r)@ == got(pfstr(inp@.skip(pos as int)))
            && used(r) == pos + used(pfstr(inp@.skip(pos as int)))
            && pos < used(r) <= inp@.len(),
{
    match parse_jstr(inp, pos) {
        None => None,
        Some((bytes, p2)) => {
            let ghost bytes_v = bytes@;
            match string_from_utf8(bytes) {
                None => {
                    proof {
                        broadcast use encode_utf8_valid_utf8;

                        assert(!valid_utf8(bytes_v));
                    }
                    None
                },
                Some(s) => {
                    proof {
                        broadcast use encode_utf8_valid_utf8, encode_utf8_decode_utf8;

                        assert(valid_utf8(bytes_v));
                        assert(decode_utf8(encode_utf8(s@)) == s@);
                    }
                    Some((s, p2))
                },
            }
        },
    }
}

/// Parsing a rendered text field gives the text back.
pub proof fn lemma_pfstr_render(s: Seq<char>, rest: Seq<u8>)
    ensures
        pfstr(rstr(s) + rest) == Some((s, rstr(s).len() as int)),
{
    broadcast use encode_utf8_valid_utf8, encode_utf8_decode_utf8;

    lemma_pjstr_render(encode_utf8(s), rest);
}

// --- the envelope --------------------------------------------------------

/// The abstract content of an envelope: its three text fields.
#[verifier::ext_equal]
pub struct EnvV {
    pub salt: Seq<char>,
    pub nonce: Seq<char>,
    pub ciphertext: Seq<char>,
}

impl View for EncryptedData {
    type V = EnvV;

    open spec fn view(&self) -> EnvV {
        EnvV { salt: self.salt@, nonce: self.nonce@, ciphertext: self.ciphertext@ }
    }
}

pub open spec fn l_env_open() -> Seq<u8> {
    seq![123u8, 34u8, 115u8, 97u8, 108u8, 116u8, 34u8, 58u8]
}

pub open spec fn l_env_nonce() -> Seq<u8> {
    seq![44u8, 34u8, 110u8, 111u8, 110u8, 99u8, 101u8, 34u8, 58u8]
}

pub open spec fn l_env_ct() -> Seq<u8> {
    seq![
        44u8,
        34u8,
        99u8,
        105u8,
        112u8,
        104u8,
        101u8,
        114u8,
        116u8,
        101u8,
        120u8,
        116u8,
        34u8,
        58u8,
    ]
}

pub open spec fn l_close() -> Seq<u8> {
    seq![125u8]
}

/// The canonical rendering of an envelope:
/// `{"salt":…,"nonce":…,"ciphertext":…}`.
pub open spec fn render_env(e: EnvV) -> Seq<u8> {
    l_env_open() + rstr(e.salt) + l_env_nonce() + rstr(e.nonce) + l_env_ct() + rstr(e.ciphertext)
        + l_close()
}

/// Parse an envelope; mirrors `render_env`.
pub open spec fn penv(inp: Seq<u8>) -> Option<(EnvV, int)> {
    if !plit(inp, l_env_open()) {
        None
    } else {
        let i1 = l_env_open().len() as int;
        match pfstr(inp.skip(i1)) {
            None => None,
            Some((salt, n1)) => {
                let i2 = i1 + n1;
                if !plit(inp.skip(i2), l_env_nonce()) {
                    None
                } else {
                    let i3 = i2 + l_env_nonce().len();
                    match pfstr(inp.skip(i3)) {
                        None => None,
                        Some((nonce, n2)) => {
                            let i4 = i3 + n2;
                            if !plit(inp.skip(i4), l_env_ct()) {
                                None
                            } else {
                                let i5 = i4 + l_env_ct().len();
                                match pfstr(inp.skip(i5)) {
                                    None => None,
                                    Some((ciphertext, n3)) => {
                                        let i6 = i5 + n3;
                                        if !plit(inp.skip(i6), l_close()) {
                                            None
                                        } else {
                                            Some((EnvV { salt, nonce, ciphertext }, i6 + 1))
                                        }
                                    },
                                }
                            }
                        },
                    }
                }
            },
        }
    }
}

/// An envelope parsed from the whole input, nothing left over.
pub open spec fn penv_full(inp: Seq<u8>) -> Option<EnvV> {
    match penv(inp) {
        Some(t) => if t.1 == inp.len() {
            Some(t.0)
        } else {
            None
        },
        None => None,
    }
}

proof fn lemma_skip_skip(s: Seq<u8>, a: int, b: int)
    requires
        0 <= a,
        0 <= b,
        a + b <= s.len(),
    ensures
        s.skip(a).skip(b) == s.skip(a + b),
{
    assert(s.skip(a).skip(b) =~= s.skip(a + b));
}

/// Append the rendering of an envelope to `out`.
pub fn write_env(out: &mut Vec<u8>, e: &EncryptedData)
    ensures
        final(out)@ == old(out)@ + render_env(e@),
{
    let open_lit: [u8; 8] = [123, 34, 115, 97, 108, 116, 34, 58];
    let nonce_lit: [u8; 9] = [44, 34, 110, 111, 110, 99, 101, 34, 58];
    let ct_lit: [u8; 14] = [44, 34, 99, 105, 112, 104, 101, 114, 116, 101, 120, 116, 34, 58];
    let close_lit: [u8; 1] = [125];
    proof {
        assert(open_lit@ =~= l_env_open());
        assert(nonce_lit@ =~= l_env_nonce());
        assert(ct_lit@ =~= l_env_ct());
        assert(close_lit@ =~= l_close());
    }
    write_lit(out, open_lit.as_slice());
    write_fstr(out, self_str(&e.salt));
    write_lit(out, nonce_lit.as_slice());
    write_fstr(out, self_str(&e.nonce));
    write_lit(out, ct_lit.as_slice());
    write_fstr(out, self_str(&e.ciphertext));
    write_lit(out, close_lit.as_slice());
    proof {
        assert(e@.salt == e.salt@ && e@.nonce == e.nonce@ && e@.ciphertext == e.ciphertext@);
        assert(out@ =~= old(out)@ + render_env(e@));
    }
}

/// Borrow a `String` as `&str`.
fn self_str(s: &String) -> (r: &str)
    ensures
        r@ == s@,
{
    s.as_str()
}

/// Parse an envelope at `pos`; mirrors `penv`.
#[verifier::rlimit(100)]
#[verifier::spinoff_prover]
pub fn parse_env(inp: &[u8], pos: usize) -> (r: Option<(EncryptedData, usize)>)
    requires
        pos <= inp@.len(),
    ensures
        r is None ==> penv(inp@.skip(pos as int)) is None,
        r is Some ==> penv(inp@.skip(pos as int)) is Some
            && got(r)@ == got(penv(inp@.skip(pos as int)))
            && used(r) == pos + used(penv(inp@.skip(pos as int)))
            && pos <= used(r) <= inp@.len(),
{
    let ghost whole = inp@.skip(pos as int);
    let open_lit: [u8; 8] = [123, 34, 115, 97, 108, 116, 34, 58];
    let nonce_lit: [u8; 9] = [44, 34, 110, 111, 110, 99, 101, 34, 58];
    let ct_lit: [u8; 14] = [44, 34, 99, 105, 112, 104, 101, 114, 116, 101, 120, 116, 34, 58];
    let close_lit: [u8; 1] = [125];
    proof {
        assert(open_lit@ =~= l_env_open());
        assert(nonce_lit@ =~= l_env_nonce());
        assert(ct_lit@ =~= l_env_ct());
        assert(close_lit@ =~= l_close());
    }
    let p1 = match parse_lit(inp, pos, open_lit.as_slice()) {
        Some(p) => p,
        None => {
            assert(penv(whole) is None);
            return None;
        },
    };
    proof {
        lemma_skip_skip(inp@, pos as int, l_env_open().len() as int);
    }
    let (salt, p2) = match parse_fstr(inp, p1) {
        Some(t) => t,
        None => {
            assert(penv(whole) is None);
            return None;
        },
    };
    proof {
        lemma_skip_skip(inp@, pos as int, p2 - pos);
    }
    let p3 = match parse_lit(inp, p2, nonce_lit.as_slice()) {
        Some(p) => p,
        None => {
            assert(penv(whole) is None);
            return None;
        },
    };
    proof {
        lemma_skip_skip(inp@, pos as int, p3 - pos);
    }
    let (nonce, p4) = match parse_fstr(inp, p3) {
        Some(t) => t,
        None => {
            assert(penv(whole) is None);
            return None;
        },
    };
    proof {
        lemma_skip_skip(inp@, pos as int, p4 - pos);
    }
    let p5 = match parse_lit(inp, p4, ct_lit.as_slice()) {
        Some(p) => p,
        None => {
            assert(penv(whole) is None);
            return None;
        },
    };
    proof {
        lemma_skip_skip(inp@, pos as int, p5 - pos);
    }
    let (ciphertext, p6) = match parse_fstr(inp, p5) {
        Some(t) => t,
        None => {
            assert(penv(whole) is None);
            return None;
        },
    };
    proof {
        lemma_skip_skip(inp@, pos as int, p6 - pos);
    }
    let p7 = match parse_lit(inp, p6, close_lit.as_slice()) {
        Some(p) => p,
        None => {
            assert(penv(whole) is None);
            return None;
        },
    };
    let r = EncryptedData { salt, nonce, ciphertext };
    assert(penv(whole) is Some && got(penv(whole)) == r@ && used(penv(whole)) == p7 - pos);
    Some((r, p7))
}

/// Advancing the cursor past a rendered piece leaves the rest.
pub proof fn lemma_step_skip(inp: Seq<u8>, i: int, piece: Seq<u8>, rest: Seq<u8>)
    requires
        0 <= i <= inp.len(),
        inp.skip(i) == piece + rest,
    ensures
        inp.skip(i + piece.len()) == rest,
        i + piece.len() <= inp.len(),
{
    assert(inp.skip(i).len() == inp.len() - i);
    lemma_skip_skip(inp, i, piece.len() as int);
    assert((piece + rest).skip(piece.len() as int) =~= rest);
}

/// Parsing a rendered envelope gives the envelope back.
#[verifier::rlimit(100)]
#[verifier::spinoff_prover]
pub proof fn lemma_penv_render(e: EnvV, rest: Seq<u8>)
    ensures
        penv(render_env(e) + rest) == Some((e, render_env(e).len() as int)),
{
    let inp = render_env(e) + rest;
    let s1 = rstr(e.salt);
    let s2 = rstr(e.nonce);
    let s3 = rstr(e.ciphertext);
    let r7 = rest;
    let r6 = l_close() + r7;
    let r5 = s3 + r6;
    let r4 = l_env_ct() + r5;
    let r3 = s2 + r4;
    let r2 = l_env_nonce() + r3;
    let r1 = s1 + r2;
    assert(inp =~= l_env_open() + r1);
    assert(inp.skip(0) =~= inp);
    crate::json::lemma_plit_render(l_env_open(), r1);
    lemma_step_skip(inp, 0, l_env_open(), r1);
    let i1 = l_env_open().len() as int;
    lemma_pfstr_render(e.salt, r2);
    lemma_step_skip(inp, i1, s1, r2);
    let i2 = i1 + s1.len();
    crate::json::lemma_plit_render(l_env_nonce(), r3);
    lemma_step_skip(inp, i2, l_env_nonce(), r3);
    let i3 = i2 + l_env_nonce().len();
    lemma_pfstr_render(e.nonce, r4);
    lemma_step_skip(inp, i3, s2, r4);
    let i4 = i3 + s2.len();
    crate::json::lemma_plit_render(l_env_ct(), r5);
    lemma_step_skip(inp, i4, l_env_ct(), r5);
    let i5 = i4 + l_env_ct().len();
    lemma_pfstr_render(e.ciphertext, r6);
    lemma_step_skip(inp, i5, s3, r6);
    let i6 = i5 + s3.len();
    crate::json::lemma_plit_render(l_close(), r7);
    lemma_step_skip(inp, i6, l_close(), r7);
    assert(penv(inp) == Some((EnvV { salt: e.salt, nonce: e.nonce, ciphertext: e.ciphertext }, i6
        + 1)));
    assert(EnvV { salt: e.salt, nonce: e.nonce, ciphertext: e.ciphertext } =~= e);
    assert(render_env(e).len() == i6 + 1);
}

// --- literals of the state format ---------------------------------------

pub open spec fn l_cfg_open() -> Seq<u8> {
    seq![123u8, 34u8, 116u8, 104u8, 101u8, 109u8, 101u8, 34u8, 58u8]
}

pub open spec fn l_cfg_aaro() -> Seq<u8> {
    seq![44u8, 34u8, 97u8, 117u8, 116u8, 111u8, 95u8, 97u8, 112u8, 112u8, 114u8, 111u8, 118u8, 101u8, 95u8, 114u8, 101u8, 97u8, 100u8, 95u8, 111u8, 112u8, 115u8, 34u8, 58u8]
}

pub open spec fn l_cfg_sn() -> Seq<u8> {
    seq![44u8, 34u8, 115u8, 104u8, 111u8, 119u8, 95u8, 110u8, 111u8, 116u8, 105u8, 102u8, 105u8, 99u8, 97u8, 116u8, 105u8, 111u8, 110u8, 115u8, 34u8, 58u8]
}

pub open spec fn l_cfg_tsh() -> Seq<u8> {
    seq![44u8, 34u8, 116u8, 101u8, 114u8, 109u8, 105u8, 110u8, 97u8, 108u8, 95u8, 115u8, 104u8, 101u8, 108u8, 108u8, 34u8, 58u8]
}

pub open spec fn l_cfg_ee() -> Seq<u8> {
    seq![44u8, 34u8, 101u8, 110u8, 99u8, 114u8, 121u8, 112u8, 116u8, 105u8, 111u8, 110u8, 95u8, 101u8, 110u8, 97u8, 98u8, 108u8, 101u8, 100u8, 34u8, 58u8]
}

pub open spec fn l_id_open() -> Seq<u8> {
    seq![123u8, 34u8, 105u8, 100u8, 34u8, 58u8]
}

pub open spec fn l_op_type() -> Seq<u8> {
    seq![44u8, 34u8, 111u8, 112u8, 101u8, 114u8, 97u8, 116u8, 105u8, 111u8, 110u8, 95u8, 116u8, 121u8, 112u8, 101u8, 34u8, 58u8]
}

pub open spec fn l_op_payload() -> Seq<u8> {
    seq![44u8, 34u8, 112u8, 97u8, 121u8, 108u8, 111u8, 97u8, 100u8, 34u8, 58u8]
}

pub open spec fn l_op_status() -> Seq<u8> {
    seq![44u8, 34u8, 115u8, 116u8, 97u8, 116u8, 117u8, 115u8, 34u8, 58u8]
}

pub open spec fn l_ts() -> Seq<u8> {
    seq![44u8, 34u8, 116u8, 105u8, 109u8, 101u8, 115u8, 116u8, 97u8, 109u8, 112u8, 34u8, 58u8]
}

pub open spec fn l_op_src() -> Seq<u8> {
    seq![44u8, 34u8, 115u8, 111u8, 117u8, 114u8, 99u8, 101u8, 34u8, 58u8]
}

pub open spec fn l_note_msg() -> Seq<u8> {
    seq![44u8, 34u8, 109u8, 101u8, 115u8, 115u8, 97u8, 103u8, 101u8, 34u8, 58u8]
}

pub open spec fn l_note_level() -> Seq<u8> {
    seq![44u8, 34u8, 108u8, 101u8, 118u8, 101u8, 108u8, 34u8, 58u8]
}

pub open spec fn l_note_dis() -> Seq<u8> {
    seq![44u8, 34u8, 100u8, 105u8, 115u8, 109u8, 105u8, 115u8, 115u8, 101u8, 100u8, 34u8, 58u8]
}

pub open spec fn l_sess_shell() -> Seq<u8> {
    seq![44u8, 34u8, 115u8, 104u8, 101u8, 108u8, 108u8, 34u8, 58u8]
}

pub open spec fn l_sess_rows() -> Seq<u8> {
    seq![44u8, 34u8, 114u8, 111u8, 119u8, 115u8, 34u8, 58u8]
}

pub open spec fn l_sess_cols() -> Seq<u8> {
    seq![44u8, 34u8, 99u8, 111u8, 108u8, 115u8, 34u8, 58u8]
}

pub open spec fn l_sess_active() -> Seq<u8> {
    seq![44u8, 34u8, 97u8, 99u8, 116u8, 105u8, 118u8, 101u8, 34u8, 58u8]
}

pub open spec fn l_sess_created() -> Seq<u8> {
    seq![44u8, 34u8, 99u8, 114u8, 101u8, 97u8, 116u8, 101u8, 100u8, 95u8, 97u8, 116u8, 34u8, 58u8]
}

pub open spec fn l_st_open() -> Seq<u8> {
    seq![123u8, 34u8, 99u8, 111u8, 110u8, 102u8, 105u8, 103u8, 34u8, 58u8]
}

pub open spec fn l_st_ops() -> Seq<u8> {
    seq![44u8, 34u8, 112u8, 101u8, 110u8, 100u8, 105u8, 110u8, 103u8, 95u8, 111u8, 112u8, 101u8, 114u8, 97u8, 116u8, 105u8, 111u8, 110u8, 115u8, 34u8, 58u8]
}

pub open spec fn l_st_notes() -> Seq<u8> {
    seq![44u8, 34u8, 110u8, 111u8, 116u8, 105u8, 102u8, 105u8, 99u8, 97u8, 116u8, 105u8, 111u8, 110u8, 115u8, 34u8, 58u8]
}

pub open spec fn l_st_sess() -> Seq<u8> {
    seq![44u8, 34u8, 116u8, 101u8, 114u8, 109u8, 105u8, 110u8, 97u8, 108u8, 95u8, 115u8, 101u8, 115u8, 115u8, 105u8, 111u8, 110u8, 115u8, 34u8, 58u8]
}

pub open spec fn l_colon() -> Seq<u8> {
    seq![58u8]
}

/// Parse a decimal number that fits a `u16`.
pub open spec fn pu16(inp: Seq<u8>) -> Option<(u16, int)> {
    match pdec(inp) {
        Some(t) => if t.0 < 65536 {
            Some((t.0 as u16, t.1))
        } else {
            None
        },
        None => None,
    }
}

/// Parsing a rendered `u16` gives the number back, as long as no digit
/// follows it.
pub proof fn lemma_pu16_render(n: u16, rest: Seq<u8>)
    requires
        rest.len() == 0 || !is_digit(rest[0]),
    ensures
        pu16(dec_of(n as nat) + rest) == Some((n, dec_of(n as nat).len() as int)),
{
    lemma_pdec_render(n as nat, rest);
}

/// The rendering of one payload entry: key, colon, value.
#[verifier::opaque]
pub open spec fn render_pentry(e: (Seq<char>, Seq<char>)) -> Seq<u8> {
    rstr(e.0) + l_colon() + rstr(e.1)
}

/// Parse one payload entry; mirrors `render_pentry`.
#[verifier::opaque]
pub open spec fn ppentry(inp: Seq<u8>) -> Option<((Seq<char>, Seq<char>), int)> {
    match pfstr(inp) {
        None => None,
        Some((k, n1)) => {
            if !plit(inp.skip(n1), l_colon()) {
                None
            } else {
                match pfstr(inp.skip(n1 + 1)) {
                    None => None,
                    Some((v, n2)) => Some(((k, v), n1 + 1 + n2)),
                }
            }
        },
    }
}

/// Append the rendering of one payload entry to `out`.
pub fn write_pentry(out: &mut Vec<u8>, e: &(String, String))
    ensures
        final(out)@ == old(out)@ + render_pentry((e.0@, e.1@)),
{
    let a_colon: [u8; 1] = [58];
    proof {
        reveal(crate::codec::render_pentry);
        assert(a_colon@ =~= l_colon());
    }
    write_fstr(out, self_str(&e.0));
    write_lit(out, a_colon.as_slice());
    write_fstr(out, self_str(&e.1));
    proof {
        assert(out@ =~= old(out)@ + render_pentry((e.0@, e.1@)));
    }
}

/// Parse one payload entry at `pos`; mirrors `ppentry`.
pub fn parse_pentry(inp: &[u8], pos: usize) -> (r: Option<((String, String), usize)>)
    requires
        pos <= inp@.len(),
    ensures
        r is None ==> ppentry(inp@.skip(pos as int)) is None,
        r is Some ==> ppentry(inp@.skip(pos as int)) is Some
            && (got(r).0@, got(r).1@) == got(ppentry(inp@.skip(pos as int)))
            && used(r) == pos + used(ppentry(inp@.skip(pos as int)))
            && pos < used(r) <= inp@.len(),
{
    let ghost whole = inp@.skip(pos as int);
    let a_colon: [u8; 1] = [58];
    proof {
        reveal(crate::codec::ppentry);
        assert(a_colon@ =~= l_colon());
    }
    let (k, p1) = match parse_fstr(inp, pos) {
        Some(t) => t,
        None => {
            assert(ppentry(whole) is None);
            return None;
        },
    };
    proof {
        lemma_skip_skip(inp@, pos as int, p1 - pos);
    }
    let p2 = match parse_lit(inp, p1, a_colon.as_slice()) {
        Some(t) => t,
        None => {
            assert(ppentry(whole) is None);
            return None;
        },
    };
    proof {
        lemma_skip_skip(inp@, pos as int, p2 - pos);
    }
    let (v, p3) = match parse_fstr(inp, p2) {
        Some(t) => t,
        None => {
            assert(ppentry(whole) is None);
            return None;
        },
    };
    proof {
        assert(ppentry(whole) is Some);
        assert(got(ppentry(whole)) == (k@, v@));
        assert(used(ppentry(whole)) == p3 - pos);
    }
    Some(((k, v), p3))
}

/// Parsing a rendered payload entry gives it back.
pub proof fn lemma_ppentry_render(e: (Seq<char>, Seq<char>), rest: Seq<u8>)
    ensures
        ppentry(render_pentry(e) + rest) == Some((e, render_pentry(e).len() as int)),
{
    reveal(crate::codec::ppentry);
    reveal(crate::codec::render_pentry);
    let inp = render_pentry(e) + rest;
    let r3 = rest;
    let r2 = rstr(e.1) + r3;
    let r1 = l_colon() + r2;
    let r0 = rstr(e.0) + r1;
    assert(inp =~= r0);
    assert(inp.skip(0) =~= inp);
    lemma_pfstr_render(e.0, r1);
    lemma_step_skip(inp, 0, rstr(e.0), r1);
    let c0 = rstr(e.0).len() as int;
    crate::json::lemma_plit_render(l_colon(), r2);
    lemma_step_skip(inp, c0, l_colon(), r2);
    let c1 = c0 + 1;
    lemma_pfstr_render(e.1, r3);
    lemma_step_skip(inp, c1, rstr(e.1), r3);
    assert(ppentry(inp) == Some(((e.0, e.1), c1 + rstr(e.1).len())));
    assert((e.0, e.1) == e);
}

/// The rendering of one session entry: the record's id as the key,
/// then the record.
#[verifier::opaque]
pub open spec fn render_sentry(s: SessV) -> Seq<u8> {
    rstr(s.id) + l_colon() + render_sess(s)
}

/// Parse one session entry; the key must equal the record's own id.
#[verifier::opaque]
pub open spec fn psentry(inp: Seq<u8>) -> Option<(SessV, int)> {
    match pfstr(inp) {
        None => None,
        Some((k, n1)) => {
            if !plit(inp.skip(n1), l_colon()) {
                None
            } else {
                match psess(inp.skip(n1 + 1)) {
                    None => None,
                    Some((s, n2)) => if k == s.id {
                        Some((s, n1 + 1 + n2))
                    } else {
                        None
                    },
                }
            }
        },
    }
}

/// Append the rendering of one session entry to `out`.
pub fn write_sentry(out: &mut Vec<u8>, s: &TerminalSession)
    ensures
        final(out)@ == old(out)@ + render_sentry(s@),
{
    let a_colon: [u8; 1] = [58];
    proof {
        reveal(crate::codec::render_sentry);
        assert(a_colon@ =~= l_colon());
    }
    write_fstr(out, self_str(&s.id));
    write_lit(out, a_colon.as_slice());
    write_sess(out, s);
    proof {
        assert(out@ =~= old(out)@ + render_sentry(s@));
    }
}

/// Parse one session entry at `pos`; mirrors `psentry`.
#[verifier::rlimit(100)]
#[verifier::spinoff_prover]
pub fn parse_sentry(inp: &[u8], pos: usize) -> (r: Option<(TerminalSession, usize)>)
    requires
        pos <= inp@.len(),
    ensures
        r is None ==> psentry(inp@.skip(pos as int)) is None,
        r is Some ==> psentry(inp@.skip(pos as int)) is Some
            && got(r)@ == got(psentry(inp@.skip(pos as int)))
            && used(r) == pos + used(psentry(inp@.skip(pos as int)))
            && pos < used(r) <= inp@.len(),
{
    let ghost whole = inp@.skip(pos as int);
    let a_colon: [u8; 1] = [58];
    proof {
        reveal(crate::codec::psentry);
        assert(a_colon@ =~= l_colon());
    }
    let (k, p1) = match parse_fstr(inp, pos) {
        Some(t) => t,
        None => {
            assert(psentry(whole) is None);
            return None;
        },
    };
    proof {
        lemma_skip_skip(inp@, pos as int, p1 - pos);
    }
    let p2 = match parse_lit(inp, p1, a_colon.as_slice()) {
        Some(t) => t,
        None => {
            assert(psentry(whole) is None);
            return None;
        },
    };
    proof {
        lemma_skip_skip(inp@, pos as int, p2 - pos);
    }
    let (s, p3) = match parse_sess(inp, p2) {
        Some(t) => t,
        None => {
            assert(psentry(whole) is None);
            return None;
        },
    };
    if !(k == s.id) {
        assert(psentry(whole) is None);
        return None;
    }
    proof {
        assert(psentry(whole) is Some);
        assert(got(psentry(whole)) == s@);
        assert(used(psentry(whole)) == p3 - pos);
    }
    Some((s, p3))
}

/// Parsing a rendered session entry gives it back.
pub proof fn lemma_psentry_render(s: SessV, rest: Seq<u8>)
    ensures
        psentry(render_sentry(s) + rest) == Some((s, render_sentry(s).len() as int)),
{
    reveal(crate::codec::psentry);
    reveal(crate::codec::render_sentry);
    let inp = render_sentry(s) + rest;
    let r3 = rest;
    let r2 = render_sess(s) + r3;
    let r1 = l_colon() + r2;
    let r0 = rstr(s.id) + r1;
    assert(inp =~= r0);
    assert(inp.skip(0) =~= inp);
    lemma_pfstr_render(s.id, r1);
    lemma_step_skip(inp, 0, rstr(s.id), r1);
    let c0 = rstr(s.id).len() as int;
    crate::json::lemma_plit_render(l_colon(), r2);
    lemma_step_skip(inp, c0, l_colon(), r2);
    let c1 = c0 + 1;
    lemma_psess_render(s, r3);
    lemma_step_skip(inp, c1, render_sess(s), r3);
    assert(psentry(inp) == Some((s, c1 + render_sess(s).len())));
}

/// The canonical rendering of one config record.
#[verifier::opaque]
pub open spec fn render_config(v: ConfigV) -> Seq<u8> {
    l_cfg_open() + rstr(v.theme) + l_cfg_aaro() + rbool(v.auto_approve_read_ops) + l_cfg_sn() + rbool(v.show_notifications) + l_cfg_tsh() + rstr(v.terminal_shell) + l_cfg_ee() + rbool(v.encryption_enabled) + l_close()
}

/// Parse one config record; mirrors `render_config`.
#[verifier::opaque]
pub open spec fn pconfig(inp: Seq<u8>) -> Option<(ConfigV, int)> {
    if !plit(inp, l_cfg_open()) {
        None
    } else {
        let i0 = l_cfg_open().len() as int;
        match pfstr(inp.skip(i0)) {
            None => None,
            Some((x0, n0)) => {
                let j1 = i0 + n0;
                if !plit(inp.skip(j1), l_cfg_aaro()) {
                    None
                } else {
                    let i1 = j1 + l_cfg_aaro().len();
                    match pbool(inp.skip(i1)) {
                        None => None,
                        Some((x1, n1)) => {
                            let j2 = i1 + n1;
                            if !plit(inp.skip(j2), l_cfg_sn()) {
                                None
                            } else {
                                let i2 = j2 + l_cfg_sn().len();
                                match pbool(inp.skip(i2)) {
                                    None => None,
                                    Some((x2, n2)) => {
                                        let j3 = i2 + n2;
                                        if !plit(inp.skip(j3), l_cfg_tsh()) {
                                            None
                                        } else {
                                            let i3 = j3 + l_cfg_tsh().len();
                                            match pfstr(inp.skip(i3)) {
                                                None => None,
                                                Some((x3, n3)) => {
                                                    let j4 = i3 + n3;
                                                    if !plit(inp.skip(j4), l_cfg_ee()) {
                                                        None
                                                    } else {
                                                        let i4 = j4 + l_cfg_ee().len();
                                                        match pbool(inp.skip(i4)) {
                                                            None => None,
                                                            Some((x4, n4)) => {
                                                                let jf = i4 + n4;
                                                                if !plit(inp.skip(jf), l_close()) {
                                                                    None
                                                                } else {
                                                                    Some((ConfigV { theme: x0, auto_approve_read_ops: x1, show_notifications: x2, terminal_shell: x3, encryption_enabled: x4 }, jf + 1))
                                                                }
                                                            },
                                                        }
                                                    }
                                                },
                                            }
                                        }
                                    },
                                }
                            }
                        },
                    }
                }
            },
        }
    }
}

/// Append the rendering of one config record to `out`.
pub fn write_config(out: &mut Vec<u8>, x: &SidecarConfig)
    ensures
        final(out)@ == old(out)@ + render_config(x@),
{
    let a_l_cfg_open: [u8; 9] = [123, 34, 116, 104, 101, 109, 101, 34, 58];
    let a_l_cfg_aaro: [u8; 25] = [44, 34, 97, 117, 116, 111, 95, 97, 112, 112, 114, 111, 118, 101, 95, 114, 101, 97, 100, 95, 111, 112, 115, 34, 58];
    let a_l_cfg_sn: [u8; 22] = [44, 34, 115, 104, 111, 119, 95, 110, 111, 116, 105, 102, 105, 99, 97, 116, 105, 111, 110, 115, 34, 58];
    let a_l_cfg_tsh: [u8; 18] = [44, 34, 116, 101, 114, 109, 105, 110, 97, 108, 95, 115, 104, 101, 108, 108, 34, 58];
    let a_l_cfg_ee: [u8; 22] = [44, 34, 101, 110, 99, 114, 121, 112, 116, 105, 111, 110, 95, 101, 110, 97, 98, 108, 101, 100, 34, 58];
    let a_close: [u8; 1] = [125];
    proof {
        reveal(crate::codec::render_config);
        assert(a_l_cfg_open@ =~= l_cfg_open());
        assert(a_l_cfg_aaro@ =~= l_cfg_aaro());
        assert(a_l_cfg_sn@ =~= l_cfg_sn());
        assert(a_l_cfg_tsh@ =~= l_cfg_tsh());
        assert(a_l_cfg_ee@ =~= l_cfg_ee());
        assert(a_close@ =~= l_close());
    }
    write_lit(out, a_l_cfg_open.as_slice());
    write_fstr(out, self_str(&x.theme));
    write_lit(out, a_l_cfg_aaro.as_slice());
    write_bool(out, x.auto_approve_read_ops);
    write_lit(out, a_l_cfg_sn.as_slice());
    write_bool(out, x.show_notifications);
    write_lit(out, a_l_cfg_tsh.as_slice());
    write_fstr(out, self_str(&x.terminal_shell));
    write_lit(out, a_l_cfg_ee.as_slice());
    write_bool(out, x.encryption_enabled);
    write_lit(out, a_close.as_slice());
    proof {
        assert(x@.theme == x.theme@ && x@.terminal_shell == x.terminal_shell@);
        assert(x@.auto_approve_read_ops == x.auto_approve_read_ops);
        assert(x@.show_notifications == x.show_notifications);
        assert(x@.encryption_enabled == x.encryption_enabled);
        assert(out@ =~= old(out)@ + render_config(x@));
    }
}

/// Parse one config record at `pos`; mirrors `pconfig`.
#[verifier::rlimit(100)]
#[verifier::spinoff_prover]
pub fn parse_config(inp: &[u8], pos: usize) -> (r: Option<(SidecarConfig, usize)>)
    requires
        pos <= inp@.len(),
    ensures
        r is None ==> pconfig(inp@.skip(pos as int)) is None,
        r is Some ==> pconfig(inp@.skip(pos as int)) is Some
            && got(r)@ == got(pconfig(inp@.skip(pos as int)))
            && used(r) == pos + used(pconfig(inp@.skip(pos as int)))
            && pos < used(r) <= inp@.len(),
{
    let ghost whole = inp@.skip(pos as int);
    let a_l_cfg_open: [u8; 9] = [123, 34, 116, 104, 101, 109, 101, 34, 58];
    let a_l_cfg_aaro: [u8; 25] = [44, 34, 97, 117, 116, 111, 95, 97, 112, 112, 114, 111, 118, 101, 95, 114, 101, 97, 100, 95, 111, 112, 115, 34, 58];
    let a_l_cfg_sn: [u8; 22] = [44, 34, 115, 104, 111, 119, 95, 110, 111, 116, 105, 102, 105, 99, 97, 116, 105, 111, 110, 115, 34, 58];
    let a_l_cfg_tsh: [u8; 18] = [44, 34, 116, 101, 114, 109, 105, 110, 97, 108, 95, 115, 104, 101, 108, 108, 34, 58];
    let a_l_cfg_ee: [u8; 22] = [44, 34, 101, 110, 99, 114, 121, 112, 116, 105, 111, 110, 95, 101, 110, 97, 98, 108, 101, 100, 34, 58];
    let a_close: [u8; 1] = [125];
    proof {
        reveal(crate::codec::pconfig);
        assert(a_l_cfg_open@ =~= l_cfg_open());
        assert(a_l_cfg_aaro@ =~= l_cfg_aaro());
        assert(a_l_cfg_sn@ =~= l_cfg_sn());
        assert(a_l_cfg_tsh@ =~= l_cfg_tsh());
        assert(a_l_cfg_ee@ =~= l_cfg_ee());
        assert(a_close@ =~= l_close());
    }
    let q0 = match parse_lit(inp, pos, a_l_cfg_open.as_slice()) {
        Some(t) => t,
        None => {
            assert(pconfig(whole) is None);
            return None;
        },
    };
    proof {
        lemma_skip_skip(inp@, pos as int, q0 - pos);
    }
    let (x0, q1) = match parse_fstr(inp, q0) {
        Some(t) => t,
        None => {
            assert(pconfig(whole) is None);
            return None;
        },
    };
    proof {
        lemma_skip_skip(inp@, pos as int, q1 - pos);
    }
    let q2 = match parse_lit(inp, q1, a_l_cfg_aaro.as_slice()) {
        Some(t) => t,
        None => {
            assert(pconfig(whole) is None);
            return None;
        },
    };
    proof {
        lemma_skip_skip(inp@, pos as int, q2 - pos);
    }
    let (x1, q3) = match parse_bool(inp, q2) {
        Some(t) => t,
        None => {
            assert(pconfig(whole) is None);
            return None;
        },
    };
    proof {
        lemma_skip_skip(inp@, pos as int, q3 - pos);
    }
    let q4 = match parse_lit(inp, q3, a_l_cfg_sn.as_slice()) {
        Some(t) => t,
        None => {
            assert(pconfig(whole) is None);
            return None;
        },
    };
    proof {
        lemma_skip_skip(inp@, pos as int, q4 - pos);
    }
    let (x2, q5) = match parse_bool(inp, q4) {
        Some(t) => t,
        None => {
            assert(pconfig(whole) is None);
            return None;
        },
    };
    proof {
        lemma_skip_skip(inp@, pos as int, q5 - pos);
    }
    let q6 = match parse_lit(inp, q5, a_l_cfg_tsh.as_slice()) {
        Some(t) => t,
        None => {
            assert(pconfig(whole) is None);
            return None;
        },
    };
    proof {
        lemma_skip_skip(inp@, pos as int, q6 - pos);
    }
    let (x3, q7) = match parse_fstr(inp, q6) {
        Some(t) => t,
        None => {
            assert(pconfig(whole) is None);
            return None;
        },
    };
    proof {
        lemma_skip_skip(inp@, pos as int, q7 - pos);
    }
    let q8 = match parse_lit(inp, q7, a_l_cfg_ee.as_slice()) {
        Some(t) => t,
        None => {
            assert(pconfig(whole) is None);
            return None;
        },
    };
    proof {
        lemma_skip_skip(inp@, pos as int, q8 - pos);
    }
    let (x4, q9) = match parse_bool(inp, q8) {
        Some(t) => t,
        None => {
            assert(pconfig(whole) is None);
            return None;
        },
    };
    proof {
        lemma_skip_skip(inp@, pos as int, q9 - pos);
    }
    let qf = match parse_lit(inp, q9, a_close.as_slice()) {
        Some(t) => t,
        None => {
            assert(pconfig(whole) is None);
            return None;
        },
    };
    let r = SidecarConfig { theme: x0, auto_approve_read_ops: x1, show_notifications: x2, terminal_shell: x3, encryption_enabled: x4 };
    proof {
        assert(got(pconfig(whole)) =~= r@);
        assert(used(pconfig(whole)) == qf - pos);
    }
    Some((r, qf))
}

/// Parsing a rendered config record gives it back.
#[verifier::rlimit(100)]
#[verifier::spinoff_prover]
pub proof fn lemma_pconfig_render(v: ConfigV, rest: Seq<u8>)
    ensures
        pconfig(render_config(v) + rest) == Some((v, render_config(v).len() as int)),
{
    reveal(crate::codec::pconfig);
    reveal(crate::codec::render_config);
    let inp = render_config(v) + rest;
    let r11 = rest;
    let r10 = l_close() + r11;
    let r9 = rbool(v.encryption_enabled) + r10;
    let r8 = l_cfg_ee() + r9;
    let r7 = rstr(v.terminal_shell) + r8;
    let r6 = l_cfg_tsh() + r7;
    let r5 = rbool(v.show_notifications) + r6;
    let r4 = l_cfg_sn() + r5;
    let r3 = rbool(v.auto_approve_read_ops) + r4;
    let r2 = l_cfg_aaro() + r3;
    let r1 = rstr(v.theme) + r2;
    let r0 = l_cfg_open() + r1;
    vstd::seq_lib::lemma_concat_associative(l_cfg_open() + rstr(v.theme) + l_cfg_aaro() + rbool(v.auto_approve_read_ops) + l_cfg_sn() + rbool(v.show_notifications) + l_cfg_tsh() + rstr(v.terminal_shell) + l_cfg_ee() + rbool(v.encryption_enabled), l_close(), r11);
    vstd::seq_lib::lemma_concat_associative(l_cfg_open() + rstr(v.theme) + l_cfg_aaro() + rbool(v.auto_approve_read_ops) + l_cfg_sn() + rbool(v.show_notifications) + l_cfg_tsh() + rstr(v.terminal_shell) + l_cfg_ee(), rbool(v.encryption_enabled), r10);
    vstd::seq_lib::lemma_concat_associative(l_cfg_open() + rstr(v.theme) + l_cfg_aaro() + rbool(v.auto_approve_read_ops) + l_cfg_sn() + rbool(v.show_notifications) + l_cfg_tsh() + rstr(v.terminal_shell), l_cfg_ee(), r9);
    vstd::seq_lib::lemma_concat_associative(l_cfg_open() + rstr(v.theme) + l_cfg_aaro() + rbool(v.auto_approve_read_ops) + l_cfg_sn() + rbool(v.show_notifications) + l_cfg_tsh(), rstr(v.terminal_shell), r8);
    vstd::seq_lib::lemma_concat_associative(l_cfg_open() + rstr(v.theme) + l_cfg_aaro() + rbool(v.auto_approve_read_ops) + l_cfg_sn() + rbool(v.show_notifications), l_cfg_tsh(), r7);
    vstd::seq_lib::lemma_concat_associative(l_cfg_open() + rstr(v.theme) + l_cfg_aaro() + rbool(v.auto_approve_read_ops) + l_cfg_sn(), rbool(v.show_notifications), r6);
    vstd::seq_lib::lemma_concat_associative(l_cfg_open() + rstr(v.theme) + l_cfg_aaro() + rbool(v.auto_approve_read_ops), l_cfg_sn(), r5);
    vstd::seq_lib::lemma_concat_associative(l_cfg_open() + rstr(v.theme) + l_cfg_aaro(), rbool(v.auto_approve_read_ops), r4);
    vstd::seq_lib::lemma_concat_associative(l_cfg_open() + rstr(v.theme), l_cfg_aaro(), r3);
    vstd::seq_lib::lemma_concat_associative(l_cfg_open(), rstr(v.theme), r2);
    assert(inp == r0);
    assert(inp.skip(0) =~= inp);
    crate::json::lemma_plit_render(l_cfg_open(), r1);
    lemma_step_skip(inp, 0, l_cfg_open(), r1);
    assert(plit(inp.skip(0), l_cfg_open()));
    let c0 = l_cfg_open().len() as int;
    lemma_pfstr_render(v.theme, r2);
    lemma_step_skip(inp, c0, rstr(v.theme), r2);
    assert(pfstr(inp.skip(c0)) == Some((v.theme, rstr(v.theme).len() as int)));
    let c1 = c0 + rstr(v.theme).len();
    crate::json::lemma_plit_render(l_cfg_aaro(), r3);
    lemma_step_skip(inp, c1, l_cfg_aaro(), r3);
    assert(plit(inp.skip(c1), l_cfg_aaro()));
    let c2 = c1 + l_cfg_aaro().len();
    lemma_pbool_render(v.auto_approve_read_ops, r4);
    lemma_step_skip(inp, c2, rbool(v.auto_approve_read_ops), r4);
    assert(pbool(inp.skip(c2)) == Some((v.auto_approve_read_ops, rbool(v.auto_approve_read_ops).len() as int)));
    let c3 = c2 + rbool(v.auto_approve_read_ops).len();
    crate::json::lemma_plit_render(l_cfg_sn(), r5);
    lemma_step_skip(inp, c3, l_cfg_sn(), r5);
    assert(plit(inp.skip(c3), l_cfg_sn()));
    let c4 = c3 + l_cfg_sn().len();
    lemma_pbool_render(v.show_notifications, r6);
    lemma_step_skip(inp, c4, rbool(v.show_notifications), r6);
    assert(pbool(inp.skip(c4)) == Some((v.show_notifications, rbool(v.show_notifications).len() as int)));
    let c5 = c4 + rbool(v.show_notifications).len();
    crate::json::lemma_plit_render(l_cfg_tsh(), r7);
    lemma_step_skip(inp, c5, l_cfg_tsh(), r7);
    assert(plit(inp.skip(c5), l_cfg_tsh()));
    let c6 = c5 + l_cfg_tsh().len();
    lemma_pfstr_render(v.terminal_shell, r8);
    lemma_step_skip(inp, c6, rstr(v.terminal_shell), r8);
    assert(pfstr(inp.skip(c6)) == Some((v.terminal_shell, rstr(v.terminal_shell).len() as int)));
    let c7 = c6 + rstr(v.terminal_shell).len();
    crate::json::lemma_plit_render(l_cfg_ee(), r9);
    lemma_step_skip(inp, c7, l_cfg_ee(), r9);
    assert(plit(inp.skip(c7), l_cfg_ee()));
    let c8 = c7 + l_cfg_ee().len();
    lemma_pbool_render(v.encryption_enabled, r10);
    lemma_step_skip(inp, c8, rbool(v.encryption_enabled), r10);
    assert(pbool(inp.skip(c8)) == Some((v.encryption_enabled, rbool(v.encryption_enabled).len() as int)));
    let c9 = c8 + rbool(v.encryption_enabled).len();
    crate::json::lemma_plit_render(l_close(), r11);
    lemma_step_skip(inp, c9, l_close(), r11);
    assert(plit(inp.skip(c9), l_close()));
    let c10 = c9 + l_close().len();
    assert(pconfig(inp) == Some((ConfigV { theme: v.theme, auto_approve_read_ops: v.auto_approve_read_ops, show_notifications: v.show_notifications, terminal_shell: v.terminal_shell, encryption_enabled: v.encryption_enabled }, c10)));
    assert(ConfigV { theme: v.theme, auto_approve_read_ops: v.auto_approve_read_ops, show_notifications: v.show_notifications, terminal_shell: v.terminal_shell, encryption_enabled: v.encryption_enabled } =~= v);
    assert(render_config(v).len() == c10);
}

/// The canonical rendering of one sess record.
#[verifier::opaque]
pub open spec fn render_sess(v: SessV) -> Seq<u8> {
    l_id_open() + rstr(v.id) + l_sess_shell() + rstr(v.shell) + l_sess_rows() + dec_of(v.rows as nat) + l_sess_cols() + dec_of(v.cols as nat) + l_sess_active() + rbool(v.active) + l_sess_created() + rstr(v.created_at) + l_close()
}

/// Parse one sess record; mirrors `render_sess`.
#[verifier::opaque]
pub open spec fn psess(inp: Seq<u8>) -> Option<(SessV, int)> {
    if !plit(inp, l_id_open()) {
        None
    } else {
        let i0 = l_id_open().len() as int;
        match pfstr(inp.skip(i0)) {
            None => None,
            Some((x0, n0)) => {
                let j1 = i0 + n0;
                if !plit(inp.skip(j1), l_sess_shell()) {
                    None
                } else {
                    let i1 = j1 + l_sess_shell().len();
                    match pfstr(inp.skip(i1)) {
                        None => None,
                        Some((x1, n1)) => {
                            let j2 = i1 + n1;
                            if !plit(inp.skip(j2), l_sess_rows()) {
                                None
                            } else {
                                let i2 = j2 + l_sess_rows().len();
                                match pu16(inp.skip(i2)) {
                                    None => None,
                                    Some((x2, n2)) => {
                                        let j3 = i2 + n2;
                                        if !plit(inp.skip(j3), l_sess_cols()) {
                                            None
                                        } else {
                                            let i3 = j3 + l_sess_cols().len();
                                            match pu16(inp.skip(i3)) {
                                                None => None,
                                                Some((x3, n3)) => {
                                                    let j4 = i3 + n3;
                                                    if !plit(inp.skip(j4), l_sess_active()) {
                                                        None
                                                    } else {
                                                        let i4 = j4 + l_sess_active().len();
                                                        match pbool(inp.skip(i4)) {
                                                            None => None,
                                                            Some((x4, n4)) => {
                                                                let j5 = i4 + n4;
                                                                if !plit(inp.skip(j5), l_sess_created()) {
                                                                    None
                                                                } else {
                                                                    let i5 = j5 + l_sess_created().len();
                                                                    match pfstr(inp.skip(i5)) {
                                                                        None => None,
                                                                        Some((x5, n5)) => {
                                                                            let jf = i5 + n5;
                                                                            if !plit(inp.skip(jf), l_close()) {
                                                                                None
                                                                            } else {
                                                                                Some((SessV { id: x0, shell: x1, rows: x2, cols: x3, active: x4, created_at: x5 }, jf + 1))
                                                                            }
                                                                        },
                                                                    }
                                                                }
                                                            },
                                                        }
                                                    }
                                                },
                                            }
                                        }
                                    },
                                }
                            }
                        },
                    }
                }
            },
        }
    }
}

/// Append the rendering of one sess record to `out`.
pub fn write_sess(out: &mut Vec<u8>, x: &TerminalSession)
    ensures
        final(out)@ == old(out)@ + render_sess(x@),
{
    let a_l_id_open: [u8; 6] = [123, 34, 105, 100, 34, 58];
    let a_l_sess_shell: [u8; 9] = [44, 34, 115, 104, 101, 108, 108, 34, 58];
    let a_l_sess_rows: [u8; 8] = [44, 34, 114, 111, 119, 115, 34, 58];
    let a_l_sess_cols: [u8; 8] = [44, 34, 99, 111, 108, 115, 34, 58];
    let a_l_sess_active: [u8; 10] = [44, 34, 97, 99, 116, 105, 118, 101, 34, 58];
    let a_l_sess_created: [u8; 14] = [44, 34, 99, 114, 101, 97, 116, 101, 100, 95, 97, 116, 34, 58];
    let a_close: [u8; 1] = [125];
    proof {
        reveal(crate::codec::render_sess);
        assert(a_l_id_open@ =~= l_id_open());
        assert(a_l_sess_shell@ =~= l_sess_shell());
        assert(a_l_sess_rows@ =~= l_sess_rows());
        assert(a_l_sess_cols@ =~= l_sess_cols());
        assert(a_l_sess_active@ =~= l_sess_active());
        assert(a_l_sess_created@ =~= l_sess_created());
        assert(a_close@ =~= l_close());
    }
    write_lit(out, a_l_id_open.as_slice());
    write_fstr(out, self_str(&x.id));
    write_lit(out, a_l_sess_shell.as_slice());
    write_fstr(out, self_str(&x.shell));
    write_lit(out, a_l_sess_rows.as_slice());
    write_dec_u16(out, x.rows);
    write_lit(out, a_l_sess_cols.as_slice());
    write_dec_u16(out, x.cols);
    write_lit(out, a_l_sess_active.as_slice());
    write_bool(out, x.active);
    write_lit(out, a_l_sess_created.as_slice());
    write_fstr(out, self_str(&x.created_at));
    write_lit(out, a_close.as_slice());
    proof {
        assert(out@ =~= old(out)@ + render_sess(x@));
    }
}

/// Parse one sess record at `pos`; mirrors `psess`.
#[verifier::rlimit(100)]
#[verifier::spinoff_prover]
pub fn parse_sess(inp: &[u8], pos: usize) -> (r: Option<(TerminalSession, usize)>)
    requires
        pos <= inp@.len(),
    ensures
        r is None ==> psess(inp@.skip(pos as int)) is None,
        r is Some ==> psess(inp@.skip(pos as int)) is Some
            && got(r)@ == got(psess(inp@.skip(pos as int)))
            && used(r) == pos + used(psess(inp@.skip(pos as int)))
            && pos < used(r) <= inp@.len(),
{
    let ghost whole = inp@.skip(pos as int);
    let a_l_id_open: [u8; 6] = [123, 34, 105, 100, 34, 58];
    let a_l_sess_shell: [u8; 9] = [44, 34, 115, 104, 101, 108, 108, 34, 58];
    let a_l_sess_rows: [u8; 8] = [44, 34, 114, 111, 119, 115, 34, 58];
    let a_l_sess_cols: [u8; 8] = [44, 34, 99, 111, 108, 115, 34, 58];
    let a_l_sess_active: [u8; 10] = [44, 34, 97, 99, 116, 105, 118, 101, 34, 58];
    let a_l_sess_created: [u8; 14] = [44, 34, 99, 114, 101, 97, 116, 101, 100, 95, 97, 116, 34, 58];
    let a_close: [u8; 1] = [125];
    proof {
        reveal(crate::codec::psess);
        assert(a_l_id_open@ =~= l_id_open());
        assert(a_l_sess_shell@ =~= l_sess_shell());
        assert(a_l_sess_rows@ =~= l_sess_rows());
        assert(a_l_sess_cols@ =~= l_sess_cols());
        assert(a_l_sess_active@ =~= l_sess_active());
        assert(a_l_sess_created@ =~= l_sess_created());
        assert(a_close@ =~= l_close());
    }
    let q0 = match parse_lit(inp, pos, a_l_id_open.as_slice()) {
        Some(t) => t,
        None => {
            assert(psess(whole) is None);
            return None;
        },
    };
    proof {
        lemma_skip_skip(inp@, pos as int, q0 - pos);
    }
    let (x0, q1) = match parse_fstr(inp, q0) {
        Some(t) => t,
        None => {
            assert(psess(whole) is None);
            return None;
        },
    };
    proof {
        lemma_skip_skip(inp@, pos as int, q1 - pos);
    }
    let q2 = match parse_lit(inp, q1, a_l_sess_shell.as_slice()) {
        Some(t) => t,
        None => {
            assert(psess(whole) is None);
            return None;
        },
    };
    proof {
        lemma_skip_skip(inp@, pos as int, q2 - pos);
    }
    let (x1, q3) = match parse_fstr(inp, q2) {
        Some(t) => t,
        None => {
            assert(psess(whole) is None);
            return None;
        },
    };
    proof {
        lemma_skip_skip(inp@, pos as int, q3 - pos);
    }
    let q4 = match parse_lit(inp, q3, a_l_sess_rows.as_slice()) {
        Some(t) => t,
        None => {
            assert(psess(whole) is None);
            return None;
        },
    };
    proof {
        lemma_skip_skip(inp@, pos as int, q4 - pos);
    }
    let (x2, q5) = match parse_dec_u16(inp, q4) {
        Some(t) => t,
        None => {
            assert(psess(whole) is None);
            return None;
        },
    };
    proof {
        lemma_skip_skip(inp@, pos as int, q5 - pos);
    }
    let q6 = match parse_lit(inp, q5, a_l_sess_cols.as_slice()) {
        Some(t) => t,
        None => {
            assert(psess(whole) is None);
            return None;
        },
    };
    proof {
        lemma_skip_skip(inp@, pos as int, q6 - pos);
    }
    let (x3, q7) = match parse_dec_u16(inp, q6) {
        Some(t) => t,
        None => {
            assert(psess(whole) is None);
            return None;
        },
    };
    proof {
        lemma_skip_skip(inp@, pos as int, q7 - pos);
    }
    let q8 = match parse_lit(inp, q7, a_l_sess_active.as_slice()) {
        Some(t) => t,
        None => {
            assert(psess(whole) is None);
            return None;
        },
    };
    proof {
        lemma_skip_skip(inp@, pos as int, q8 - pos);
    }
    let (x4, q9) = match parse_bool(inp, q8) {
        Some(t) => t,
        None => {
            assert(psess(whole) is None);
            return None;
        },
    };
    proof {
        lemma_skip_skip(inp@, pos as int, q9 - pos);
    }
    let q10 = match parse_lit(inp, q9, a_l_sess_created.as_slice()) {
        Some(t) => t,
        None => {
            assert(psess(whole) is None);
            return None;
        },
    };
    proof {
        lemma_skip_skip(inp@, pos as int, q10 - pos);
    }
    let (x5, q11) = match parse_fstr(inp, q10) {
        Some(t) => t,
        None => {
            assert(psess(whole) is None);
            return None;
        },
    };
    proof {
        lemma_skip_skip(inp@, pos as int, q11 - pos);
    }
    let qf = match parse_lit(inp, q11, a_close.as_slice()) {
        Some(t) => t,
        None => {
            assert(psess(whole) is None);
            return None;
        },
    };
    let r = TerminalSession { id: x0, shell: x1, rows: x2, cols: x3, active: x4, created_at: x5 };
    proof {
        assert(got(psess(whole)) =~= r@);
        assert(used(psess(whole)) == qf - pos);
    }
    Some((r, qf))
}

proof fn lemma_psess_shape(inp: Seq<u8>, v: SessV, c0: int, c1: int, c2: int, c3: int, c4: int, c5: int, c6: int, c7: int, c8: int, c9: int, c10: int, c11: int, c12: int)
    requires
        plit(inp, l_id_open()),
        c0 == 0 + l_id_open().len(),
        pfstr(inp.skip(c0)) == Some((v.id, rstr(v.id).len() as int)),
        c1 == c0 + rstr(v.id).len(),
        plit(inp.skip(c1), l_sess_shell()),
        c2 == c1 + l_sess_shell().len(),
        pfstr(inp.skip(c2)) == Some((v.shell, rstr(v.shell).len() as int)),
        c3 == c2 + rstr(v.shell).len(),
        plit(inp.skip(c3), l_sess_rows()),
        c4 == c3 + l_sess_rows().len(),
        pu16(inp.skip(c4)) == Some((v.rows, dec_of(v.rows as nat).len() as int)),
        c5 == c4 + dec_of(v.rows as nat).len(),
        plit(inp.skip(c5), l_sess_cols()),
        c6 == c5 + l_sess_cols().len(),
        pu16(inp.skip(c6)) == Some((v.cols, dec_of(v.cols as nat).len() as int)),
        c7 == c6 + dec_of(v.cols as nat).len(),
        plit(inp.skip(c7), l_sess_active()),
        c8 == c7 + l_sess_active().len(),
        pbool(inp.skip(c8)) == Some((v.active, rbool(v.active).len() as int)),
        c9 == c8 + rbool(v.active).len(),
        plit(inp.skip(c9), l_sess_created()),
        c10 == c9 + l_sess_created().len(),
        pfstr(inp.skip(c10)) == Some((v.created_at, rstr(v.created_at).len() as int)),
        c11 == c10 + rstr(v.created_at).len(),
        plit(inp.skip(c11), l_close()),
        c12 == c11 + l_close().len(),
    ensures
        psess(inp) == Some((v, c12)),
{
    reveal(crate::codec::psess);
    assert(psess(inp) == Some((SessV { id: v.id, shell: v.shell, rows: v.rows, cols: v.cols, active: v.active, created_at: v.created_at }, c12)));
    assert(SessV { id: v.id, shell: v.shell, rows: v.rows, cols: v.cols, active: v.active, created_at: v.created_at } =~= v);
}

/// Parsing a rendered sess record gives it back.
#[verifier::rlimit(100)]
#[verifier::spinoff_prover]
pub proof fn lemma_psess_render(v: SessV, rest: Seq<u8>)
    ensures
        psess(render_sess(v) + rest) == Some((v, render_sess(v).len() as int)),
{
    reveal(crate::codec::render_sess);
    let inp = render_sess(v) + rest;
    let r13 = rest;
    let r12 = l_close() + r13;
    let r11 = rstr(v.created_at) + r12;
    let r10 = l_sess_created() + r11;
    let r9 = rbool(v.active) + r10;
    let r8 = l_sess_active() + r9;
    let r7 = dec_of(v.cols as nat) + r8;
    let r6 = l_sess_cols() + r7;
    let r5 = dec_of(v.rows as nat) + r6;
    let r4 = l_sess_rows() + r5;
    let r3 = rstr(v.shell) + r4;
    let r2 = l_sess_shell() + r3;
    let r1 = rstr(v.id) + r2;
    let r0 = l_id_open() + r1;
    assert(inp =~= r0);
    assert(inp.skip(0) =~= inp);
    crate::json::lemma_plit_render(l_id_open(), r1);
    lemma_step_skip(inp, 0, l_id_open(), r1);
    let c0 = l_id_open().len() as int;
    lemma_pfstr_render(v.id, r2);
    lemma_step_skip(inp, c0, rstr(v.id), r2);
    let c1 = c0 + rstr(v.id).len();
    crate::json::lemma_plit_render(l_sess_shell(), r3);
    lemma_step_skip(inp, c1, l_sess_shell(), r3);
    let c2 = c1 + l_sess_shell().len();
    lemma_pfstr_render(v.shell, r4);
    lemma_step_skip(inp, c2, rstr(v.shell), r4);
    let c3 = c2 + rstr(v.shell).len();
    crate::json::lemma_plit_render(l_sess_rows(), r5);
    lemma_step_skip(inp, c3, l_sess_rows(), r5);
    let c4 = c3 + l_sess_rows().len();
    assert(r6[0] == 44);
    lemma_pu16_render(v.rows, r6);
    lemma_step_skip(inp, c4, dec_of(v.rows as nat), r6);
    let c5 = c4 + dec_of(v.rows as nat).len();
    crate::json::lemma_plit_render(l_sess_cols(), r7);
    lemma_step_skip(inp, c5, l_sess_cols(), r7);
    let c6 = c5 + l_sess_cols().len();
    assert(r8[0] == 44);
    lemma_pu16_render(v.cols, r8);
    lemma_step_skip(inp, c6, dec_of(v.cols as nat), r8);
    let c7 = c6 + dec_of(v.cols as nat).len();
    crate::json::lemma_plit_render(l_sess_active(), r9);
    lemma_step_skip(inp, c7, l_sess_active(), r9);
    let c8 = c7 + l_sess_active().len();
    lemma_pbool_render(v.active, r10);
    lemma_step_skip(inp, c8, rbool(v.active), r10);
    let c9 = c8 + rbool(v.active).len();
    crate::json::lemma_plit_render(l_sess_created(), r11);
    lemma_step_skip(inp, c9, l_sess_created(), r11);
    let c10 = c9 + l_sess_created().len();
    lemma_pfstr_render(v.created_at, r12);
    lemma_step_skip(inp, c10, rstr(v.created_at), r12);
    let c11 = c10 + rstr(v.created_at).len();
    crate::json::lemma_plit_render(l_close(), r13);
    lemma_step_skip(inp, c11, l_close(), r13);
    let c12 = c11 + l_close().len();
    lemma_psess_shape(inp, v, c0, c1, c2, c3, c4, c5, c6, c7, c8, c9, c10, c11, c12);
    reveal(crate::codec::render_sess);
    assert(render_sess(v).len() == c12);
}


/// The rendering of the items of a pmap collection, comma-separated.
pub open spec fn render_pmap_items(items: Seq<(Seq<char>, Seq<char>)>) -> Seq<u8>
    decreases items.len(),
{
    if items.len() == 0 {
        Seq::empty()
    } else if items.len() == 1 {
        render_pentry(items[0])
    } else {
        render_pentry(items[0]) + seq![44u8] + render_pmap_items(items.skip(1))
    }
}

/// The canonical rendering of a pmap collection.
#[verifier::opaque]
pub open spec fn render_pmap(items: Seq<(Seq<char>, Seq<char>)>) -> Seq<u8> {
    if items.len() == 0 {
        seq![123u8, 125u8]
    } else {
        seq![123u8] + render_pmap_items(items) + seq![125u8]
    }
}

/// Parse the items of a pmap collection after the opening bracket,
/// including the closing bracket.
pub open spec fn ppmap_rest(inp: Seq<u8>) -> Option<(Seq<(Seq<char>, Seq<char>)>, int)>
    decreases inp.len(),
{
    match ppentry(inp) {
        None => None,
        Some((v, n)) => if n < 1 || n >= inp.len() {
            None
        } else if inp[n] == 44 {
            match ppmap_rest(inp.skip(n + 1)) {
                None => None,
                Some((vs, m)) => Some((seq![v] + vs, n + 1 + m)),
            }
        } else if inp[n] == 125 {
            Some((seq![v], n + 1))
        } else {
            None
        },
    }
}

/// Parse a pmap collection; mirrors `render_pmap`.
#[verifier::opaque]
pub open spec fn ppmap(inp: Seq<u8>) -> Option<(Seq<(Seq<char>, Seq<char>)>, int)> {
    if inp.len() >= 2 && inp[0] == 123 && inp[1] == 125 {
        Some((Seq::empty(), 2))
    } else if inp.len() >= 1 && inp[0] == 123 {
        match ppmap_rest(inp.skip(1)) {
            None => None,
            Some((vs, m)) => Some((vs, m + 1)),
        }
    } else {
        None
    }
}

proof fn lemma_render_pmap_items_snoc(items: Seq<(Seq<char>, Seq<char>)>, x: (Seq<char>, Seq<char>))
    requires
        items.len() >= 1,
    ensures
        render_pmap_items(items.push(x)) == render_pmap_items(items) + seq![44u8] + render_pentry(x),
    decreases items.len(),
{
    if items.len() == 1 {
        assert(items.push(x).skip(1) =~= seq![x]);
        assert(seq![x].len() == 1 && seq![x][0] == x);
        assert(render_pmap_items(seq![x]) == render_pentry(x));
        assert(items.push(x)[0] == items[0]);
    } else {
        assert(items.push(x).skip(1) =~= items.skip(1).push(x));
        lemma_render_pmap_items_snoc(items.skip(1), x);
        assert(items.push(x)[0] == items[0]);
        assert(render_pentry(items[0]) + seq![44u8] + (render_pmap_items(items.skip(1)) + seq![44u8]
            + render_pentry(x)) =~= (render_pentry(items[0]) + seq![44u8] + render_pmap_items(
            items.skip(1),
        )) + seq![44u8] + render_pentry(x));
    }
}

/// Parsing rendered pmap items (with the closing bracket) gives them back.
#[verifier::rlimit(100)]
#[verifier::spinoff_prover]
proof fn lemma_ppmap_rest_render(items: Seq<(Seq<char>, Seq<char>)>, rest: Seq<u8>)
    requires
        items.len() >= 1,
    ensures
        ppmap_rest(render_pmap_items(items) + seq![125u8] + rest) == Some(
            (items, render_pmap_items(items).len() + 1int),
        ),
    decreases items.len(),
{
    reveal(crate::codec::render_pentry);
    let inp = render_pmap_items(items) + seq![125u8] + rest;
    if items.len() == 1 {
        assert(render_pmap_items(items) == render_pentry(items[0]));
        lemma_ppentry_render(items[0], seq![125u8] + rest);
        assert(inp =~= render_pentry(items[0]) + (seq![125u8] + rest));
        assert(inp.skip(0) =~= inp);
        lemma_step_skip(inp, 0, render_pentry(items[0]), seq![125u8] + rest);
        let n = render_pentry(items[0]).len() as int;
        assert(inp[n] == inp.skip(n)[0]);
        assert(inp[n] == 125);
        assert(n >= 1);
        assert(seq![items[0]] =~= items);
    } else {
        let tail_items = items.skip(1);
        assert(render_pmap_items(items) == render_pentry(items[0]) + seq![44u8] + render_pmap_items(
            tail_items,
        ));
        let after = render_pmap_items(tail_items) + seq![125u8] + rest;
        lemma_ppentry_render(items[0], seq![44u8] + after);
        assert(inp =~= render_pentry(items[0]) + (seq![44u8] + after));
        assert(inp.skip(0) =~= inp);
        lemma_step_skip(inp, 0, render_pentry(items[0]), seq![44u8] + after);
        let n = render_pentry(items[0]).len() as int;
        assert(inp[n] == inp.skip(n)[0]);
        assert(inp[n] == 44);
        lemma_step_skip(inp, n, seq![44u8], after);
        assert(inp.skip(n + 1) =~= after);
        lemma_ppmap_rest_render(tail_items, rest);
        assert(seq![items[0]] + tail_items =~= items);
    }
}

/// Parsing a rendered pmap collection gives it back.
pub proof fn lemma_ppmap_render(items: Seq<(Seq<char>, Seq<char>)>, rest: Seq<u8>)
    ensures
        ppmap(render_pmap(items) + rest) == Some((items, render_pmap(items).len() as int)),
{
    reveal(crate::codec::ppmap);
    reveal(crate::codec::render_pmap);
    reveal(crate::codec::render_pentry);
    let inp = render_pmap(items) + rest;
    if items.len() == 0 {
        assert(inp[0] == 123 && inp[1] == 125);
        assert(items =~= Seq::<(Seq<char>, Seq<char>)>::empty());
    } else {
        assert(inp =~= seq![123u8] + (render_pmap_items(items) + seq![125u8] + rest));
        assert(inp[0] == 123);
        assert(render_pentry(items[0])[0] == 34);
        assert(render_pmap_items(items)[0] == render_pentry(items[0])[0]);
        assert(inp[1] == render_pmap_items(items)[0]);
        assert(inp[1] != 125);
        assert(inp.skip(1) =~= render_pmap_items(items) + seq![125u8] + rest);
        lemma_ppmap_rest_render(items, rest);
    }
}

/// Append the rendering of a pmap collection to `out`.
pub fn write_pmap(out: &mut Vec<u8>, items: &Vec<(String, String)>)
    ensures
        final(out)@ == old(out)@ + render_pmap(payload_view(items@)),
{
    let ghost iv = payload_view(items@);
    out.push(123);
    let n = items.len();
    let mut i: usize = 0;
    while i < n
        invariant
            n == items@.len(),
            iv == payload_view(items@),
            iv.len() == n,
            i <= n,
            i == 0 ==> out@ == old(out)@ + seq![123u8],
            i > 0 ==> out@ == old(out)@ + seq![123u8] + render_pmap_items(iv.take(i as int)),
        decreases n - i,
    {
        if i > 0 {
            out.push(44);
        }
        write_pentry(out, &items[i]);
        proof {
            assert(iv[i as int] == (items@[i as int].0@, items@[i as int].1@));
            if i == 0 {
                assert(iv.take(1) =~= seq![iv[0]]);
                assert(seq![iv[0]].len() == 1 && seq![iv[0]][0] == iv[0]);
                assert(render_pmap_items(seq![iv[0]]) == render_pentry(iv[0]));
                assert(out@ =~= old(out)@ + seq![123u8] + render_pmap_items(iv.take(1)));
            } else {
                lemma_render_pmap_items_snoc(iv.take(i as int), iv[i as int]);
                assert(iv.take(i as int).push(iv[i as int]) =~= iv.take(i + 1));
                assert(out@ =~= old(out)@ + seq![123u8] + render_pmap_items(iv.take(i + 1)));
            }
        }
        i += 1;
    }
    out.push(125);
    proof {
        reveal(crate::codec::render_pmap);
        if n == 0 {
            assert(out@ =~= old(out)@ + render_pmap(iv));
        } else {
            assert(iv.take(n as int) =~= iv);
            assert(out@ =~= old(out)@ + render_pmap(iv));
        }
    }
}

/// Parse a pmap collection at `pos`; mirrors `ppmap`.
#[verifier::rlimit(100)]
#[verifier::spinoff_prover]
pub fn parse_pmap(inp: &[u8], pos: usize) -> (r: Option<(Vec<(String, String)>, usize)>)
    requires
        pos <= inp@.len(),
    ensures
        r is None ==> ppmap(inp@.skip(pos as int)) is None,
        r is Some ==> ppmap(inp@.skip(pos as int)) is Some
            && payload_view(got(r)@) == got(ppmap(inp@.skip(pos as int)))
            && used(r) == pos + used(ppmap(inp@.skip(pos as int)))
            && pos < used(r) <= inp@.len(),
{
    let ghost whole = inp@.skip(pos as int);
    proof {
        reveal(crate::codec::ppmap);
    }
    if pos >= inp.len() || inp[pos] != 123 {
        proof {
            reveal(crate::codec::ppmap);
            assert(ppmap(whole) is None);
        }
        return None;
    }
    if inp.len() - pos >= 2 && inp[pos + 1] == 125 {
        let empty_acc: Vec<(String, String)> = Vec::new();
        proof {
            reveal(crate::codec::ppmap);
            assert(payload_view(empty_acc@) =~= Seq::<(Seq<char>, Seq<char>)>::empty());
            assert(ppmap(whole) is Some);
            assert(used(ppmap(whole)) == 2);
            assert(got(ppmap(whole)) =~= Seq::<(Seq<char>, Seq<char>)>::empty());
        }
        return Some((empty_acc, pos + 2));
    }
    let ghost body0 = inp@.skip(pos + 1);
    let mut acc: Vec<(String, String)> = Vec::new();
    let mut p: usize = pos + 1;
    loop
        invariant
            pos + 1 <= p <= inp@.len(),
            whole == inp@.skip(pos as int),
            body0 == inp@.skip(pos + 1),
            whole.len() > 0 && whole[0] == 123,
            !(whole.len() >= 2 && whole[1] == 125),
            whole.skip(1) == body0,
            ppmap_rest(body0) == (match ppmap_rest(inp@.skip(p as int)) {
                Some(t) => Some::<(Seq<(Seq<char>, Seq<char>)>, int)>(
                    (payload_view(acc@) + t.0, t.1 + p - (pos + 1)),
                ),
                None => None::<(Seq<(Seq<char>, Seq<char>)>, int)>,
            }),
        decreases inp@.len() - p,
    {
        let ghost region = inp@.skip(p as int);
        let ghost accv = payload_view(acc@);
        let (v, p2) = match parse_pentry(inp, p) {
            Some(t) => t,
            None => {
                proof {
                    reveal(crate::codec::ppmap);
                    assert(ppmap_rest(region) is None);
                    assert(ppmap_rest(body0) is None);
                    assert(ppmap(whole) is None);
                }
                return None;
            },
        };
        let ghost vv = (v.0@, v.1@);
        acc.push(v);
        proof {
            assert(payload_view(acc@) =~= accv + seq![vv]);
        }
        if p2 >= inp.len() {
            proof {
                reveal(crate::codec::ppmap);
                assert(ppmap_rest(region) is None);
                assert(ppmap_rest(body0) is None);
                assert(ppmap(whole) is None);
            }
            return None;
        }
        let cch: u8 = inp[p2];
        assert(region[p2 - p] == cch);
        if cch == 125 {
            proof {
                reveal(crate::codec::ppmap);
                assert(ppmap_rest(region) == Some((seq![vv], p2 + 1 - p)));
                assert(accv + seq![vv] =~= payload_view(acc@));
                assert(ppmap_rest(body0) == Some((payload_view(acc@), p2 + 1 - (pos + 1))));
                assert(ppmap(whole) is Some);
                assert(got(ppmap(whole)) == payload_view(acc@));
                assert(used(ppmap(whole)) == p2 + 1 - pos);
            }
            return Some((acc, p2 + 1));
        } else if cch == 44 {
            proof {
                assert(inp@.skip(p2 + 1) =~= region.skip(p2 + 1 - p));
                assert forall|t0: Seq<(Seq<char>, Seq<char>)>, t1: int|
                    ppmap_rest(region.skip(p2 + 1 - p)) == Some::<(Seq<(Seq<char>, Seq<char>)>, int)>(
                        (t0, t1),
                    ) implies (accv + (seq![vv] + t0) == payload_view(acc@) + t0) by {
                    assert(accv + (seq![vv] + t0) =~= (accv + seq![vv]) + t0);
                }
            }
            p = p2 + 1;
        } else {
            proof {
                reveal(crate::codec::ppmap);
                assert(ppmap_rest(region) is None);
                assert(ppmap_rest(body0) is None);
                assert(ppmap(whole) is None);
            }
            return None;
        }
    }
}

/// The rendering of the items of a sessmap collection, comma-separated.
pub open spec fn render_sessmap_items(items: Seq<SessV>) -> Seq<u8>
    decreases items.len(),
{
    if items.len() == 0 {
        Seq::empty()
    } else if items.len() == 1 {
        render_sentry(items[0])
    } else {
        render_sentry(items[0]) + seq![44u8] + render_sessmap_items(items.skip(1))
    }
}

/// The canonical rendering of a sessmap collection.
#[verifier::opaque]
pub open spec fn render_sessmap(items: Seq<SessV>) -> Seq<u8> {
    if items.len() == 0 {
        seq![123u8, 125u8]
    } else {
        seq![123u8] + render_sessmap_items(items) + seq![125u8]
    }
}

/// Parse the items of a sessmap collection after the opening bracket,
/// including the closing bracket.
pub open spec fn psessmap_rest(inp: Seq<u8>) -> Option<(Seq<SessV>, int)>
    decreases inp.len(),
{
    match psentry(inp) {
        None => None,
        Some((v, n)) => if n < 1 || n >= inp.len() {
            None
        } else if inp[n] == 44 {
            match psessmap_rest(inp.skip(n + 1)) {
                None => None,
                Some((vs, m)) => Some((seq![v] + vs, n + 1 + m)),
            }
        } else if inp[n] == 125 {
            Some((seq![v], n + 1))
        } else {
            None
        },
    }
}

/// Parse a sessmap collection; mirrors `render_sessmap`.
#[verifier::opaque]
pub open spec fn psessmap(inp: Seq<u8>) -> Option<(Seq<SessV>, int)> {
    if inp.len() >= 2 && inp[0] == 123 && inp[1] == 125 {
        Some((Seq::empty(), 2))
    } else if inp.len() >= 1 && inp[0] == 123 {
        match psessmap_rest(inp.skip(1)) {
            None => None,
            Some((vs, m)) => Some((vs, m + 1)),
        }
    } else {
        None
    }
}

proof fn lemma_render_sessmap_items_snoc(items: Seq<SessV>, x: SessV)
    requires
        items.len() >= 1,
    ensures
        render_sessmap_items(items.push(x)) == render_sessmap_items(items) + seq![44u8] + render_sentry(x),
    decreases items.len(),
{
    if items.len() == 1 {
        assert(items.push(x).skip(1) =~= seq![x]);
        assert(seq![x].len() == 1 && seq![x][0] == x);
        assert(render_sessmap_items(seq![x]) == render_sentry(x));
        assert(items.push(x)[0] == items[0]);
    } else {
        assert(items.push(x).skip(1) =~= items.skip(1).push(x));
        lemma_render_sessmap_items_snoc(items.skip(1), x);
        assert(items.push(x)[0] == items[0]);
        assert(render_sentry(items[0]) + seq![44u8] + (render_sessmap_items(items.skip(1)) + seq![44u8]
            + render_sentry(x)) =~= (render_sentry(items[0]) + seq![44u8] + render_sessmap_items(
            items.skip(1),
        )) + seq![44u8] + render_sentry(x));
    }
}

/// Parsing rendered sessmap items (with the closing bracket) gives them back.
#[verifier::rlimit(100)]
#[verifier::spinoff_prover]
proof fn lemma_psessmap_rest_render(items: Seq<SessV>, rest: Seq<u8>)
    requires
        items.len() >= 1,
    ensures
        psessmap_rest(render_sessmap_items(items) + seq![125u8] + rest) == Some(
            (items, render_sessmap_items(items).len() + 1int),
        ),
    decreases items.len(),
{
    reveal(crate::codec::render_sentry);
    let inp = render_sessmap_items(items) + seq![125u8] + rest;
    if items.len() == 1 {
        assert(render_sessmap_items(items) == render_sentry(items[0]));
        lemma_psentry_render(items[0], seq![125u8] + rest);
        assert(inp =~= render_sentry(items[0]) + (seq![125u8] + rest));
        assert(inp.skip(0) =~= inp);
        lemma_step_skip(inp, 0, render_sentry(items[0]), seq![125u8] + rest);
        let n = render_sentry(items[0]).len() as int;
        assert(inp[n] == inp.skip(n)[0]);
        assert(inp[n] == 125);
        assert(n >= 1);
        assert(seq![items[0]] =~= items);
    } else {
        let tail_items = items.skip(1);
        assert(render_sessmap_items(items) == render_sentry(items[0]) + seq![44u8] + render_sessmap_items(
            tail_items,
        ));
        let after = render_sessmap_items(tail_items) + seq![125u8] + rest;
        lemma_psentry_render(items[0], seq![44u8] + after);
        assert(inp =~= render_sentry(items[0]) + (seq![44u8] + after));
        assert(inp.skip(0) =~= inp);
        lemma_step_skip(inp, 0, render_sentry(items[0]), seq![44u8] + after);
        let n = render_sentry(items[0]).len() as int;
        assert(inp[n] == inp.skip(n)[0]);
        assert(inp[n] == 44);
        lemma_step_skip(inp, n, seq![44u8], after);
        assert(inp.skip(n + 1) =~= after);
        lemma_psessmap_rest_render(tail_items, rest);
        assert(seq![items[0]] + tail_items =~= items);
    }
}

/// Parsing a rendered sessmap collection gives it back.
pub proof fn lemma_psessmap_render(items: Seq<SessV>, rest: Seq<u8>)
    ensures
        psessmap(render_sessmap(items) + rest) == Some((items, render_sessmap(items).len() as int)),
{
    reveal(crate::codec::psessmap);
    reveal(crate::codec::render_sessmap);
    reveal(crate::codec::render_sentry);
    let inp = render_sessmap(items) + rest;
    if items.len() == 0 {
        assert(inp[0] == 123 && inp[1] == 125);
        assert(items =~= Seq::<SessV>::empty());
    } else {
        assert(inp =~= seq![123u8] + (render_sessmap_items(items) + seq![125u8] + rest));
        assert(inp[0] == 123);
        assert(render_sentry(items[0])[0] == 34);
        assert(render_sessmap_items(items)[0] == render_sentry(items[0])[0]);
        assert(inp[1] == render_sessmap_items(items)[0]);
        assert(inp[1] != 125);
        assert(inp.skip(1) =~= render_sessmap_items(items) + seq![125u8] + rest);
        lemma_psessmap_rest_render(items, rest);
    }
}

/// Append the rendering of a sessmap collection to `out`.
pub fn write_sessmap(out: &mut Vec<u8>, items: &Vec<TerminalSession>)
    ensures
        final(out)@ == old(out)@ + render_sessmap(items@.map_values(|o: TerminalSession| o@)),
{
    let ghost iv = items@.map_values(|o: TerminalSession| o@);
    out.push(123);
    let n = items.len();
    let mut i: usize = 0;
    while i < n
        invariant
            n == items@.len(),
            iv == items@.map_values(|o: TerminalSession| o@),
            iv.len() == n,
            i <= n,
            i == 0 ==> out@ == old(out)@ + seq![123u8],
            i > 0 ==> out@ == old(out)@ + seq![123u8] + render_sessmap_items(iv.take(i as int)),
        decreases n - i,
    {
        if i > 0 {
            out.push(44);
        }
        write_sentry(out, &items[i]);
        proof {
            assert(iv[i as int] == items@[i as int]@);
            if i == 0 {
                assert(iv.take(1) =~= seq![iv[0]]);
                assert(seq![iv[0]].len() == 1 && seq![iv[0]][0] == iv[0]);
                assert(render_sessmap_items(seq![iv[0]]) == render_sentry(iv[0]));
                assert(out@ =~= old(out)@ + seq![123u8] + render_sessmap_items(iv.take(1)));
            } else {
                lemma_render_sessmap_items_snoc(iv.take(i as int), iv[i as int]);
                assert(iv.take(i as int).push(iv[i as int]) =~= iv.take(i + 1));
                assert(out@ =~= old(out)@ + seq![123u8] + render_sessmap_items(iv.take(i + 1)));
            }
        }
        i += 1;
    }
    out.push(125);
    proof {
        reveal(crate::codec::render_sessmap);
        if n == 0 {
            assert(out@ =~= old(out)@ + render_sessmap(iv));
        } else {
            assert(iv.take(n as int) =~= iv);
            assert(out@ =~= old(out)@ + render_sessmap(iv));
        }
    }
}

/// Parse a sessmap collection at `pos`; mirrors `psessmap`.
#[verifier::rlimit(100)]
#[verifier::spinoff_prover]
pub fn parse_sessmap(inp: &[u8], pos: usize) -> (r: Option<(Vec<TerminalSession>, usize)>)
    requires
        pos <= inp@.len(),
    ensures
        r is None ==> psessmap(inp@.skip(pos as int)) is None,
        r is Some ==> psessmap(inp@.skip(pos as int)) is Some
            && got(r)@.map_values(|o: TerminalSession| o@) == got(psessmap(inp@.skip(pos as int)))
            && used(r) == pos + used(psessmap(inp@.skip(pos as int)))
            && pos < used(r) <= inp@.len(),
{
    let ghost whole = inp@.skip(pos as int);
    proof {
        reveal(crate::codec::psessmap);
    }
    if pos >= inp.len() || inp[pos] != 123 {
        proof {
            reveal(crate::codec::psessmap);
            assert(psessmap(whole) is None);
        }
        return None;
    }
    if inp.len() - pos >= 2 && inp[pos + 1] == 125 {
        let empty_acc: Vec<TerminalSession> = Vec::new();
        proof {
            reveal(crate::codec::psessmap);
            assert(empty_acc@.map_values(|o: TerminalSession| o@) =~= Seq::<SessV>::empty());
            assert(psessmap(whole) is Some);
            assert(used(psessmap(whole)) == 2);
            assert(got(psessmap(whole)) =~= Seq::<SessV>::empty());
        }
        return Some((empty_acc, pos + 2));
    }
    let ghost body0 = inp@.skip(pos + 1);
    let mut acc: Vec<TerminalSession> = Vec::new();
    let mut p: usize = pos + 1;
    loop
        invariant
            pos + 1 <= p <= inp@.len(),
            whole == inp@.skip(pos as int),
            body0 == inp@.skip(pos + 1),
            whole.len() > 0 && whole[0] == 123,
            !(whole.len() >= 2 && whole[1] == 125),
            whole.skip(1) == body0,
            psessmap_rest(body0) == (match psessmap_rest(inp@.skip(p as int)) {
                Some(t) => Some::<(Seq<SessV>, int)>(
                    (acc@.map_values(|o: TerminalSession| o@) + t.0, t.1 + p - (pos + 1)),
                ),
                None => None::<(Seq<SessV>, int)>,
            }),
        decreases inp@.len() - p,
    {
        let ghost region = inp@.skip(p as int);
        let ghost accv = acc@.map_values(|o: TerminalSession| o@);
        let (v, p2) = match parse_sentry(inp, p) {
            Some(t) => t,
            None => {
                proof {
                    reveal(crate::codec::psessmap);
                    assert(psessmap_rest(region) is None);
                    assert(psessmap_rest(body0) is None);
                    assert(psessmap(whole) is None);
                }
                return None;
            },
        };
        let ghost vv = v@;
        acc.push(v);
        proof {
            assert(acc@.map_values(|o: TerminalSession| o@) =~= accv + seq![vv]);
        }
        if p2 >= inp.len() {
            proof {
                reveal(crate::codec::psessmap);
                assert(psessmap_rest(region) is None);
                assert(psessmap_rest(body0) is None);
                assert(psessmap(whole) is None);
            }
            return None;
        }
        let cch: u8 = inp[p2];
        assert(region[p2 - p] == cch);
        if cch == 125 {
            proof {
                reveal(crate::codec::psessmap);
                assert(psessmap_rest(region) == Some((seq![vv], p2 + 1 - p)));
                assert(accv + seq![vv] =~= acc@.map_values(|o: TerminalSession| o@));
                assert(psessmap_rest(body0) == Some((acc@.map_values(|o: TerminalSession| o@), p2 + 1 - (pos + 1))));
                assert(psessmap(whole) is Some);
                assert(got(psessmap(whole)) == acc@.map_values(|o: TerminalSession| o@));
                assert(used(psessmap(whole)) == p2 + 1 - pos);
            }
            return Some((acc, p2 + 1));
        } else if cch == 44 {
            proof {
                assert(inp@.skip(p2 + 1) =~= region.skip(p2 + 1 - p));
                assert forall|t0: Seq<SessV>, t1: int|
                    psessmap_rest(region.skip(p2 + 1 - p)) == Some::<(Seq<SessV>, int)>(
                        (t0, t1),
                    ) implies (accv + (seq![vv] + t0) == acc@.map_values(|o: TerminalSession| o@) + t0) by {
                    assert(accv + (seq![vv] + t0) =~= (accv + seq![vv]) + t0);
                }
            }
            p = p2 + 1;
        } else {
            proof {
                reveal(crate::codec::psessmap);
                assert(psessmap_rest(region) is None);
                assert(psessmap_rest(body0) is None);
                assert(psessmap(whole) is None);
            }
            return None;
        }
    }
}

/// The canonical rendering of one op record.
#[verifier::opaque]
pub open spec fn render_op(v: OpV) -> Seq<u8> {
    l_id_open() + rstr(v.id) + l_op_type() + rstr(v.operation_type) + l_op_payload() + render_pmap(v.payload) + l_op_status() + rstr(v.status) + l_ts() + rstr(v.timestamp) + l_op_src() + rstr(v.source) + l_close()
}

/// Parse one op record; mirrors `render_op`.
#[verifier::opaque]
pub open spec fn pop(inp: Seq<u8>) -> Option<(OpV, int)> {
    if !plit(inp, l_id_open()) {
        None
    } else {
        let i0 = l_id_open().len() as int;
        match pfstr(inp.skip(i0)) {
            None => None,
            Some((x0, n0)) => {
                let j1 = i0 + n0;
                if !plit(inp.skip(j1), l_op_type()) {
                    None
                } else {
                    let i1 = j1 + l_op_type().len();
                    match pfstr(inp.skip(i1)) {
                        None => None,
                        Some((x1, n1)) => {
                            let j2 = i1 + n1;
                            if !plit(inp.skip(j2), l_op_payload()) {
                                None
                            } else {
                                let i2 = j2 + l_op_payload().len();
                                match ppmap(inp.skip(i2)) {
                                    None => None,
                                    Some((x2, n2)) => {
                                        let j3 = i2 + n2;
                                        if !plit(inp.skip(j3), l_op_status()) {
                                            None
                                        } else {
                                            let i3 = j3 + l_op_status().len();
                                            match pfstr(inp.skip(i3)) {
                                                None => None,
                                                Some((x3, n3)) => {
                                                    let j4 = i3 + n3;
                                                    if !plit(inp.skip(j4), l_ts()) {
                                                        None
                                                    } else {
                                                        let i4 = j4 + l_ts().len();
                                                        match pfstr(inp.skip(i4)) {
                                                            None => None,
                                                            Some((x4, n4)) => {
                                                                let j5 = i4 + n4;
                                                                if !plit(inp.skip(j5), l_op_src()) {
                                                                    None
                                                                } else {
                                                                    let i5 = j5 + l_op_src().len();
                                                                    match pfstr(inp.skip(i5)) {
                                                                        None => None,
                                                                        Some((x5, n5)) => {
                                                                            let jf = i5 + n5;
                                                                            if !plit(inp.skip(jf), l_close()) {
                                                                                None
                                                                            } else {
                                                                                Some((OpV { id: x0, operation_type: x1, payload: x2, status: x3, timestamp: x4, source: x5 }, jf + 1))
                                                                            }
                                                                        },
                                                                    }
                                                                }
                                                            },
                                                        }
                                                    }
                                                },
                                            }
                                        }
                                    },
                                }
                            }
                        },
                    }
                }
            },
        }
    }
}

/// Append the rendering of one op record to `out`.
pub fn write_op(out: &mut Vec<u8>, x: &PendingOperation)
    ensures
        final(out)@ == old(out)@ + render_op(x@),
{
    let a_l_id_open: [u8; 6] = [123, 34, 105, 100, 34, 58];
    let a_l_op_type: [u8; 18] = [44, 34, 111, 112, 101, 114, 97, 116, 105, 111, 110, 95, 116, 121, 112, 101, 34, 58];
    let a_l_op_payload: [u8; 11] = [44, 34, 112, 97, 121, 108, 111, 97, 100, 34, 58];
    let a_l_op_status: [u8; 10] = [44, 34, 115, 116, 97, 116, 117, 115, 34, 58];
    let a_l_ts: [u8; 13] = [44, 34, 116, 105, 109, 101, 115, 116, 97, 109, 112, 34, 58];
    let a_l_op_src: [u8; 10] = [44, 34, 115, 111, 117, 114, 99, 101, 34, 58];
    let a_close: [u8; 1] = [125];
    proof {
        reveal(crate::codec::render_op);
        assert(a_l_id_open@ =~= l_id_open());
        assert(a_l_op_type@ =~= l_op_type());
        assert(a_l_op_payload@ =~= l_op_payload());
        assert(a_l_op_status@ =~= l_op_status());
        assert(a_l_ts@ =~= l_ts());
        assert(a_l_op_src@ =~= l_op_src());
        assert(a_close@ =~= l_close());
    }
    write_lit(out, a_l_id_open.as_slice());
    write_fstr(out, self_str(&x.id));
    write_lit(out, a_l_op_type.as_slice());
    write_fstr(out, self_str(&x.operation_type));
    write_lit(out, a_l_op_payload.as_slice());
    write_pmap(out, &x.payload);
    write_lit(out, a_l_op_status.as_slice());
    write_fstr(out, self_str(&x.status));
    write_lit(out, a_l_ts.as_slice());
    write_fstr(out, self_str(&x.timestamp));
    write_lit(out, a_l_op_src.as_slice());
    write_fstr(out, self_str(&x.source));
    write_lit(out, a_close.as_slice());
    proof {
        assert(out@ =~= old(out)@ + render_op(x@));
    }
}

/// Parse one op record at `pos`; mirrors `pop`.
#[verifier::rlimit(100)]
#[verifier::spinoff_prover]
pub fn parse_op(inp: &[u8], pos: usize) -> (r: Option<(PendingOperation, usize)>)
    requires
        pos <= inp@.len(),
    ensures
        r is None ==> pop(inp@.skip(pos as int)) is None,
        r is Some ==> pop(inp@.skip(pos as int)) is Some
            && got(r)@ == got(pop(inp@.skip(pos as int)))
            && used(r) == pos + used(pop(inp@.skip(pos as int)))
            && pos < used(r) <= inp@.len(),
{
    let ghost whole = inp@.skip(pos as int);
    let a_l_id_open: [u8; 6] = [123, 34, 105, 100, 34, 58];
    let a_l_op_type: [u8; 18] = [44, 34, 111, 112, 101, 114, 97, 116, 105, 111, 110, 95, 116, 121, 112, 101, 34, 58];
    let a_l_op_payload: [u8; 11] = [44, 34, 112, 97, 121, 108, 111, 97, 100, 34, 58];
    let a_l_op_status: [u8; 10] = [44, 34, 115, 116, 97, 116, 117, 115, 34, 58];
    let a_l_ts: [u8; 13] = [44, 34, 116, 105, 109, 101, 115, 116, 97, 109, 112, 34, 58];
    let a_l_op_src: [u8; 10] = [44, 34, 115, 111, 117, 114, 99, 101, 34, 58];
    let a_close: [u8; 1] = [125];
    proof {
        reveal(crate::codec::pop);
        assert(a_l_id_open@ =~= l_id_open());
        assert(a_l_op_type@ =~= l_op_type());
        assert(a_l_op_payload@ =~= l_op_payload());
        assert(a_l_op_status@ =~= l_op_status());
        assert(a_l_ts@ =~= l_ts());
        assert(a_l_op_src@ =~= l_op_src());
        assert(a_close@ =~= l_close());
    }
    let q0 = match parse_lit(inp, pos, a_l_id_open.as_slice()) {
        Some(t) => t,
        None => {
            assert(pop(whole) is None);
            return None;
        },
    };
    proof {
        lemma_skip_skip(inp@, pos as int, q0 - pos);
    }
    let (x0, q1) = match parse_fstr(inp, q0) {
        Some(t) => t,
        None => {
            assert(pop(whole) is None);
            return None;
        },
    };
    proof {
        lemma_skip_skip(inp@, pos as int, q1 - pos);
    }
    let q2 = match parse_lit(inp, q1, a_l_op_type.as_slice()) {
        Some(t) => t,
        None => {
            assert(pop(whole) is None);
            return None;
        },
    };
    proof {
        lemma_skip_skip(inp@, pos as int, q2 - pos);
    }
    let (x1, q3) = match parse_fstr(inp, q2) {
        Some(t) => t,
        None => {
            assert(pop(whole) is None);
            return None;
        },
    };
    proof {
        lemma_skip_skip(inp@, pos as int, q3 - pos);
    }
    let q4 = match parse_lit(inp, q3, a_l_op_payload.as_slice()) {
        Some(t) => t,
        None => {
            assert(pop(whole) is None);
            return None;
        },
    };
    proof {
        lemma_skip_skip(inp@, pos as int, q4 - pos);
    }
    let (x2, q5) = match parse_pmap(inp, q4) {
        Some(t) => t,
        None => {
            assert(pop(whole) is None);
            return None;
        },
    };
    proof {
        lemma_skip_skip(inp@, pos as int, q5 - pos);
    }
    let q6 = match parse_lit(inp, q5, a_l_op_status.as_slice()) {
        Some(t) => t,
        None => {
            assert(pop(whole) is None);
            return None;
        },
    };
    proof {
        lemma_skip_skip(inp@, pos as int, q6 - pos);
    }
    let (x3, q7) = match parse_fstr(inp, q6) {
        Some(t) => t,
        None => {
            assert(pop(whole) is None);
            return None;
        },
    };
    proof {
        lemma_skip_skip(inp@, pos as int, q7 - pos);
    }
    let q8 = match parse_lit(inp, q7, a_l_ts.as_slice()) {
        Some(t) => t,
        None => {
            assert(pop(whole) is None);
            return None;
        },
    };
    proof {
        lemma_skip_skip(inp@, pos as int, q8 - pos);
    }
    let (x4, q9) = match parse_fstr(inp, q8) {
        Some(t) => t,
        None => {
            assert(pop(whole) is None);
            return None;
        },
    };
    proof {
        lemma_skip_skip(inp@, pos as int, q9 - pos);
    }
    let q10 = match parse_lit(inp, q9, a_l_op_src.as_slice()) {
        Some(t) => t,
        None => {
            assert(pop(whole) is None);
            return None;
        },
    };
    proof {
        lemma_skip_skip(inp@, pos as int, q10 - pos);
    }
    let (x5, q11) = match parse_fstr(inp, q10) {
        Some(t) => t,
        None => {
            assert(pop(whole) is None);
            return None;
        },
    };
    proof {
        lemma_skip_skip(inp@, pos as int, q11 - pos);
    }
    let qf = match parse_lit(inp, q11, a_close.as_slice()) {
        Some(t) => t,
        None => {
            assert(pop(whole) is None);
            return None;
        },
    };
    let r = PendingOperation { id: x0, operation_type: x1, payload: x2, status: x3, timestamp: x4, source: x5 };
    proof {
        assert(got(pop(whole)) =~= r@);
        assert(used(pop(whole)) == qf - pos);
    }
    Some((r, qf))
}

/// Parsing a rendered op record gives it back.
#[verifier::rlimit(100)]
#[verifier::spinoff_prover]
pub proof fn lemma_pop_render(v: OpV, rest: Seq<u8>)
    ensures
        pop(render_op(v) + rest) == Some((v, render_op(v).len() as int)),
{
    reveal(crate::codec::pop);
    reveal(crate::codec::render_op);
    let inp = render_op(v) + rest;
    let r13 = rest;
    let r12 = l_close() + r13;
    let r11 = rstr(v.source) + r12;
    let r10 = l_op_src() + r11;
    let r9 = rstr(v.timestamp) + r10;
    let r8 = l_ts() + r9;
    let r7 = rstr(v.status) + r8;
    let r6 = l_op_status() + r7;
    let r5 = render_pmap(v.payload) + r6;
    let r4 = l_op_payload() + r5;
    let r3 = rstr(v.operation_type) + r4;
    let r2 = l_op_type() + r3;
    let r1 = rstr(v.id) + r2;
    let r0 = l_id_open() + r1;
    assert(inp =~= r0);
    assert(inp.skip(0) =~= inp);
    crate::json::lemma_plit_render(l_id_open(), r1);
    lemma_step_skip(inp, 0, l_id_open(), r1);
    let c0 = l_id_open().len() as int;
    lemma_pfstr_render(v.id, r2);
    lemma_step_skip(inp, c0, rstr(v.id), r2);
    let c1 = c0 + rstr(v.id).len();
    crate::json::lemma_plit_render(l_op_type(), r3);
    lemma_step_skip(inp, c1, l_op_type(), r3);
    let c2 = c1 + l_op_type().len();
    lemma_pfstr_render(v.operation_type, r4);
    lemma_step_skip(inp, c2, rstr(v.operation_type), r4);
    let c3 = c2 + rstr(v.operation_type).len();
    crate::json::lemma_plit_render(l_op_payload(), r5);
    lemma_step_skip(inp, c3, l_op_payload(), r5);
    let c4 = c3 + l_op_payload().len();
    lemma_ppmap_render(v.payload, r6);
    lemma_step_skip(inp, c4, render_pmap(v.payload), r6);
    let c5 = c4 + render_pmap(v.payload).len();
    crate::json::lemma_plit_render(l_op_status(), r7);
    lemma_step_skip(inp, c5, l_op_status(), r7);
    let c6 = c5 + l_op_status().len();
    lemma_pfstr_render(v.status, r8);
    lemma_step_skip(inp, c6, rstr(v.status), r8);
    let c7 = c6 + rstr(v.status).len();
    crate::json::lemma_plit_render(l_ts(), r9);
    lemma_step_skip(inp, c7, l_ts(), r9);
    let c8 = c7 + l_ts().len();
    lemma_pfstr_render(v.timestamp, r10);
    lemma_step_skip(inp, c8, rstr(v.timestamp), r10);
    let c9 = c8 + rstr(v.timestamp).len();
    crate::json::lemma_plit_render(l_op_src(), r11);
    lemma_step_skip(inp, c9, l_op_src(), r11);
    let c10 = c9 + l_op_src().len();
    lemma_pfstr_render(v.source, r12);
    lemma_step_skip(inp, c10, rstr(v.source), r12);
    let c11 = c10 + rstr(v.source).len();
    crate::json::lemma_plit_render(l_close(), r13);
    lemma_step_skip(inp, c11, l_close(), r13);
    let c12 = c11 + l_close().len();
    assert(pop(inp) == Some((OpV { id: v.id, operation_type: v.operation_type, payload: v.payload, status: v.status, timestamp: v.timestamp, source: v.source }, c12)));
    assert(OpV { id: v.id, operation_type: v.operation_type, payload: v.payload, status: v.status, timestamp: v.timestamp, source: v.source } =~= v);
    assert(render_op(v).len() == c12);
}

/// The canonical rendering of one note record.
#[verifier::opaque]
pub open spec fn render_note(v: NoteV) -> Seq<u8> {
    l_id_open() + rstr(v.id) + l_note_msg() + rstr(v.message) + l_note_level() + rstr(v.level) + l_ts() + rstr(v.timestamp) + l_note_dis() + rbool(v.dismissed) + l_close()
}

/// Parse one note record; mirrors `render_note`.
#[verifier::opaque]
pub open spec fn pnote(inp: Seq<u8>) -> Option<(NoteV, int)> {
    if !plit(inp, l_id_open()) {
        None
    } else {
        let i0 = l_id_open().len() as int;
        match pfstr(inp.skip(i0)) {
            None => None,
            Some((x0, n0)) => {
                let j1 = i0 + n0;
                if !plit(inp.skip(j1), l_note_msg()) {
                    None
                } else {
                    let i1 = j1 + l_note_msg().len();
                    match pfstr(inp.skip(i1)) {
                        None => None,
                        Some((x1, n1)) => {
                            let j2 = i1 + n1;
                            if !plit(inp.skip(j2), l_note_level()) {
                                None
                            } else {
                                let i2 = j2 + l_note_level().len();
                                match pfstr(inp.skip(i2)) {
                                    None => None,
                                    Some((x2, n2)) => {
                                        let j3 = i2 + n2;
                                        if !plit(inp.skip(j3), l_ts()) {
                                            None
                                        } else {
                                            let i3 = j3 + l_ts().len();
                                            match pfstr(inp.skip(i3)) {
                                                None => None,
                                                Some((x3, n3)) => {
                                                    let j4 = i3 + n3;
                                                    if !plit(inp.skip(j4), l_note_dis()) {
                                                        None
                                                    } else {
                                                        let i4 = j4 + l_note_dis().len();
                                                        match pbool(inp.skip(i4)) {
                                                            None => None,
                                                            Some((x4, n4)) => {
                                                                let jf = i4 + n4;
                                                                if !plit(inp.skip(jf), l_close()) {
                                                                    None
                                                                } else {
                                                                    Some((NoteV { id: x0, message: x1, level: x2, timestamp: x3, dismissed: x4 }, jf + 1))
                                                                }
                                                            },
                                                        }
                                                    }
                                                },
                                            }
                                        }
                                    },
                                }
                            }
                        },
                    }
                }
            },
        }
    }
}

/// Append the rendering of one note record to `out`.
pub fn write_note(out: &mut Vec<u8>, x: &NotificationEvent)
    ensures
        final(out)@ == old(out)@ + render_note(x@),
{
    let a_l_id_open: [u8; 6] = [123, 34, 105, 100, 34, 58];
    let a_l_note_msg: [u8; 11] = [44, 34, 109, 101, 115, 115, 97, 103, 101, 34, 58];
    let a_l_note_level: [u8; 9] = [44, 34, 108, 101, 118, 101, 108, 34, 58];
    let a_l_ts: [u8; 13] = [44, 34, 116, 105, 109, 101, 115, 116, 97, 109, 112, 34, 58];
    let a_l_note_dis: [u8; 13] = [44, 34, 100, 105, 115, 109, 105, 115, 115, 101, 100, 34, 58];
    let a_close: [u8; 1] = [125];
    proof {
        reveal(crate::codec::render_note);
        assert(a_l_id_open@ =~= l_id_open());
        assert(a_l_note_msg@ =~= l_note_msg());
        assert(a_l_note_level@ =~= l_note_level());
        assert(a_l_ts@ =~= l_ts());
        assert(a_l_note_dis@ =~= l_note_dis());
        assert(a_close@ =~= l_close());
    }
    write_lit(out, a_l_id_open.as_slice());
    write_fstr(out, self_str(&x.id));
    write_lit(out, a_l_note_msg.as_slice());
    write_fstr(out, self_str(&x.message));
    write_lit(out, a_l_note_level.as_slice());
    write_fstr(out, self_str(&x.level));
    write_lit(out, a_l_ts.as_slice());
    write_fstr(out, self_str(&x.timestamp));
    write_lit(out, a_l_note_dis.as_slice());
    write_bool(out, x.dismissed);
    write_lit(out, a_close.as_slice());
    proof {
        assert(out@ =~= old(out)@ + render_note(x@));
    }
}

/// Parse one note record at `pos`; mirrors `pnote`.
#[verifier::rlimit(100)]
#[verifier::spinoff_prover]
pub fn parse_note(inp: &[u8], pos: usize) -> (r: Option<(NotificationEvent, usize)>)
    requires
        pos <= inp@.len(),
    ensures
        r is None ==> pnote(inp@.skip(pos as int)) is None,
        r is Some ==> pnote(inp@.skip(pos as int)) is Some
            && got(r)@ == got(pnote(inp@.skip(pos as int)))
            && used(r) == pos + used(pnote(inp@.skip(pos as int)))
            && pos < used(r) <= inp@.len(),
{
    let ghost whole = inp@.skip(pos as int);
    let a_l_id_open: [u8; 6] = [123, 34, 105, 100, 34, 58];
    let a_l_note_msg: [u8; 11] = [44, 34, 109, 101, 115, 115, 97, 103, 101, 34, 58];
    let a_l_note_level: [u8; 9] = [44, 34, 108, 101, 118, 101, 108, 34, 58];
    let a_l_ts: [u8; 13] = [44, 34, 116, 105, 109, 101, 115, 116, 97, 109, 112, 34, 58];
    let a_l_note_dis: [u8; 13] = [44, 34, 100, 105, 115, 109, 105, 115, 115, 101, 100, 34, 58];
    let a_close: [u8; 1] = [125];
    proof {
        reveal(crate::codec::pnote);
        assert(a_l_id_open@ =~= l_id_open());
        assert(a_l_note_msg@ =~= l_note_msg());
        assert(a_l_note_level@ =~= l_note_level());
        assert(a_l_ts@ =~= l_ts());
        assert(a_l_note_dis@ =~= l_note_dis());
        assert(a_close@ =~= l_close());
    }
    let q0 = match parse_lit(inp, pos, a_l_id_open.as_slice()) {
        Some(t) => t,
        None => {
            assert(pnote(whole) is None);
            return None;
        },
    };
    proof {
        lemma_skip_skip(inp@, pos as int, q0 - pos);
    }
    let (x0, q1) = match parse_fstr(inp, q0) {
        Some(t) => t,
        None => {
            assert(pnote(whole) is None);
            return None;
        },
    };
    proof {
        lemma_skip_skip(inp@, pos as int, q1 - pos);
    }
    let q2 = match parse_lit(inp, q1, a_l_note_msg.as_slice()) {
        Some(t) => t,
        None => {
            assert(pnote(whole) is None);
            return None;
        },
    };
    proof {
        lemma_skip_skip(inp@, pos as int, q2 - pos);
    }
    let (x1, q3) = match parse_fstr(inp, q2) {
        Some(t) => t,
        None => {
            assert(pnote(whole) is None);
            return None;
        },
    };
    proof {
        lemma_skip_skip(inp@, pos as int, q3 - pos);
    }
    let q4 = match parse_lit(inp, q3, a_l_note_level.as_slice()) {
        Some(t) => t,
        None => {
            assert(pnote(whole) is None);
            return None;
        },
    };
    proof {
        lemma_skip_skip(inp@, pos as int, q4 - pos);
    }
    let (x2, q5) = match parse_fstr(inp, q4) {
        Some(t) => t,
        None => {
            assert(pnote(whole) is None);
            return None;
        },
    };
    proof {
        lemma_skip_skip(inp@, pos as int, q5 - pos);
    }
    let q6 = match parse_lit(inp, q5, a_l_ts.as_slice()) {
        Some(t) => t,
        None => {
            assert(pnote(whole) is None);
            return None;
        },
    };
    proof {
        lemma_skip_skip(inp@, pos as int, q6 - pos);
    }
    let (x3, q7) = match parse_fstr(inp, q6) {
        Some(t) => t,
        None => {
            assert(pnote(whole) is None);
            return None;
        },
    };
    proof {
        lemma_skip_skip(inp@, pos as int, q7 - pos);
    }
    let q8 = match parse_lit(inp, q7, a_l_note_dis.as_slice()) {
        Some(t) => t,
        None => {
            assert(pnote(whole) is None);
            return None;
        },
    };
    proof {
        lemma_skip_skip(inp@, pos as int, q8 - pos);
    }
    let (x4, q9) = match parse_bool(inp, q8) {
        Some(t) => t,
        None => {
            assert(pnote(whole) is None);
            return None;
        },
    };
    proof {
        lemma_skip_skip(inp@, pos as int, q9 - pos);
    }
    let qf = match parse_lit(inp, q9, a_close.as_slice()) {
        Some(t) => t,
        None => {
            assert(pnote(whole) is None);
            return None;
        },
    };
    let r = NotificationEvent { id: x0, message: x1, level: x2, timestamp: x3, dismissed: x4 };
    proof {
        assert(got(pnote(whole)) =~= r@);
        assert(used(pnote(whole)) == qf - pos);
    }
    Some((r, qf))
}

/// Parsing a rendered note record gives it back.
#[verifier::rlimit(100)]
#[verifier::spinoff_prover]
pub proof fn lemma_pnote_render(v: NoteV, rest: Seq<u8>)
    ensures
        pnote(render_note(v) + rest) == Some((v, render_note(v).len() as int)),
{
    reveal(crate::codec::pnote);
    reveal(crate::codec::render_note);
    let inp = render_note(v) + rest;
    let r11 = rest;
    let r10 = l_close() + r11;
    let r9 = rbool(v.dismissed) + r10;
    let r8 = l_note_dis() + r9;
    let r7 = rstr(v.timestamp) + r8;
    let r6 = l_ts() + r7;
    let r5 = rstr(v.level) + r6;
    let r4 = l_note_level() + r5;
    let r3 = rstr(v.message) + r4;
    let r2 = l_note_msg() + r3;
    let r1 = rstr(v.id) + r2;
    let r0 = l_id_open() + r1;
    vstd::seq_lib::lemma_concat_associative(l_id_open() + rstr(v.id) + l_note_msg() + rstr(v.message) + l_note_level() + rstr(v.level) + l_ts() + rstr(v.timestamp) + l_note_dis() + rbool(v.dismissed), l_close(), r11);
    vstd::seq_lib::lemma_concat_associative(l_id_open() + rstr(v.id) + l_note_msg() + rstr(v.message) + l_note_level() + rstr(v.level) + l_ts() + rstr(v.timestamp) + l_note_dis(), rbool(v.dismissed), r10);
    vstd::seq_lib::lemma_concat_associative(l_id_open() + rstr(v.id) + l_note_msg() + rstr(v.message) + l_note_level() + rstr(v.level) + l_ts() + rstr(v.timestamp), l_note_dis(), r9);
    vstd::seq_lib::lemma_concat_associative(l_id_open() + rstr(v.id) + l_note_msg() + rstr(v.message) + l_note_level() + rstr(v.level) + l_ts(), rstr(v.timestamp), r8);
    vstd::seq_lib::lemma_concat_associative(l_id_open() + rstr(v.id) + l_note_msg() + rstr(v.message) + l_note_level() + rstr(v.level), l_ts(), r7);
    vstd::seq_lib::lemma_concat_associative(l_id_open() + rstr(v.id) + l_note_msg() + rstr(v.message) + l_note_level(), rstr(v.level), r6);
    vstd::seq_lib::lemma_concat_associative(l_id_open() + rstr(v.id) + l_note_msg() + rstr(v.message), l_note_level(), r5);
    vstd::seq_lib::lemma_concat_associative(l_id_open() + rstr(v.id) + l_note_msg(), rstr(v.message), r4);
    vstd::seq_lib::lemma_concat_associative(l_id_open() + rstr(v.id), l_note_msg(), r3);
    vstd::seq_lib::lemma_concat_associative(l_id_open(), rstr(v.id), r2);
    assert(inp == r0);
    assert(inp.skip(0) =~= inp);
    crate::json::lemma_plit_render(l_id_open(), r1);
    lemma_step_skip(inp, 0, l_id_open(), r1);
    assert(plit(inp.skip(0), l_id_open()));
    let c0 = l_id_open().len() as int;
    lemma_pfstr_render(v.id, r2);
    lemma_step_skip(inp, c0, rstr(v.id), r2);
    assert(pfstr(inp.skip(c0)) == Some((v.id, rstr(v.id).len() as int)));
    let c1 = c0 + rstr(v.id).len();
    crate::json::lemma_plit_render(l_note_msg(), r3);
    lemma_step_skip(inp, c1, l_note_msg(), r3);
    assert(plit(inp.skip(c1), l_note_msg()));
    let c2 = c1 + l_note_msg().len();
    lemma_pfstr_render(v.message, r4);
    lemma_step_skip(inp, c2, rstr(v.message), r4);
    assert(pfstr(inp.skip(c2)) == Some((v.message, rstr(v.message).len() as int)));
    let c3 = c2 + rstr(v.message).len();
    crate::json::lemma_plit_render(l_note_level(), r5);
    lemma_step_skip(inp, c3, l_note_level(), r5);
    assert(plit(inp.skip(c3), l_note_level()));
    let c4 = c3 + l_note_level().len();
    lemma_pfstr_render(v.level, r6);
    lemma_step_skip(inp, c4, rstr(v.level), r6);
    assert(pfstr(inp.skip(c4)) == Some((v.level, rstr(v.level).len() as int)));
    let c5 = c4 + rstr(v.level).len();
    crate::json::lemma_plit_render(l_ts(), r7);
    lemma_step_skip(inp, c5, l_ts(), r7);
    assert(plit(inp.skip(c5), l_ts()));
    let c6 = c5 + l_ts().len();
    lemma_pfstr_render(v.timestamp, r8);
    lemma_step_skip(inp, c6, rstr(v.timestamp), r8);
    assert(pfstr(inp.skip(c6)) == Some((v.timestamp, rstr(v.timestamp).len() as int)));
    let c7 = c6 + rstr(v.timestamp).len();
    crate::json::lemma_plit_render(l_note_dis(), r9);
    lemma_step_skip(inp, c7, l_note_dis(), r9);
    assert(plit(inp.skip(c7), l_note_dis()));
    let c8 = c7 + l_note_dis().len();
    lemma_pbool_render(v.dismissed, r10);
    lemma_step_skip(inp, c8, rbool(v.dismissed), r10);
    assert(pbool(inp.skip(c8)) == Some((v.dismissed, rbool(v.dismissed).len() as int)));
    let c9 = c8 + rbool(v.dismissed).len();
    crate::json::lemma_plit_render(l_close(), r11);
    lemma_step_skip(inp, c9, l_close(), r11);
    assert(plit(inp.skip(c9), l_close()));
    let c10 = c9 + l_close().len();
    assert(pnote(inp) == Some((NoteV { id: v.id, message: v.message, level: v.level, timestamp: v.timestamp, dismissed: v.dismissed }, c10)));
    assert(NoteV { id: v.id, message: v.message, level: v.level, timestamp: v.timestamp, dismissed: v.dismissed } =~= v);
    assert(render_note(v).len() == c10);
}

/// The rendering of the items of a ops collection, comma-separated.
pub open spec fn render_ops_items(items: Seq<OpV>) -> Seq<u8>
    decreases items.len(),
{
    if items.len() == 0 {
        Seq::empty()
    } else if items.len() == 1 {
        render_op(items[0])
    } else {
        render_op(items[0]) + seq![44u8] + render_ops_items(items.skip(1))
    }
}

/// The canonical rendering of a ops collection.
#[verifier::opaque]
pub open spec fn render_ops(items: Seq<OpV>) -> Seq<u8> {
    if items.len() == 0 {
        seq![91u8, 93u8]
    } else {
        seq![91u8] + render_ops_items(items) + seq![93u8]
    }
}

/// Parse the items of a ops collection after the opening bracket,
/// including the closing bracket.
pub open spec fn pops_rest(inp: Seq<u8>) -> Option<(Seq<OpV>, int)>
    decreases inp.len(),
{
    match pop(inp) {
        None => None,
        Some((v, n)) => if n < 1 || n >= inp.len() {
            None
        } else if inp[n] == 44 {
            match pops_rest(inp.skip(n + 1)) {
                None => None,
                Some((vs, m)) => Some((seq![v] + vs, n + 1 + m)),
            }
        } else if inp[n] == 93 {
            Some((seq![v], n + 1))
        } else {
            None
        },
    }
}

/// Parse a ops collection; mirrors `render_ops`.
#[verifier::opaque]
pub open spec fn pops(inp: Seq<u8>) -> Option<(Seq<OpV>, int)> {
    if inp.len() >= 2 && inp[0] == 91 && inp[1] == 93 {
        Some((Seq::empty(), 2))
    } else if inp.len() >= 1 && inp[0] == 91 {
        match pops_rest(inp.skip(1)) {
            None => None,
            Some((vs, m)) => Some((vs, m + 1)),
        }
    } else {
        None
    }
}

proof fn lemma_render_ops_items_snoc(items: Seq<OpV>, x: OpV)
    requires
        items.len() >= 1,
    ensures
        render_ops_items(items.push(x)) == render_ops_items(items) + seq![44u8] + render_op(x),
    decreases items.len(),
{
    if items.len() == 1 {
        assert(items.push(x).skip(1) =~= seq![x]);
        assert(seq![x].len() == 1 && seq![x][0] == x);
        assert(render_ops_items(seq![x]) == render_op(x));
        assert(items.push(x)[0] == items[0]);
    } else {
        assert(items.push(x).skip(1) =~= items.skip(1).push(x));
        lemma_render_ops_items_snoc(items.skip(1), x);
        assert(items.push(x)[0] == items[0]);
        assert(render_op(items[0]) + seq![44u8] + (render_ops_items(items.skip(1)) + seq![44u8]
            + render_op(x)) =~= (render_op(items[0]) + seq![44u8] + render_ops_items(
            items.skip(1),
        )) + seq![44u8] + render_op(x));
    }
}

/// Parsing rendered ops items (with the closing bracket) gives them back.
#[verifier::rlimit(100)]
#[verifier::spinoff_prover]
proof fn lemma_pops_rest_render(items: Seq<OpV>, rest: Seq<u8>)
    requires
        items.len() >= 1,
    ensures
        pops_rest(render_ops_items(items) + seq![93u8] + rest) == Some(
            (items, render_ops_items(items).len() + 1int),
        ),
    decreases items.len(),
{
    reveal(crate::codec::render_op);
    let inp = render_ops_items(items) + seq![93u8] + rest;
    if items.len() == 1 {
        assert(render_ops_items(items) == render_op(items[0]));
        lemma_pop_render(items[0], seq![93u8] + rest);
        vstd::seq_lib::lemma_concat_associative(render_op(items[0]), seq![93u8], rest);
        assert(inp == render_op(items[0]) + (seq![93u8] + rest));
        assert(inp.skip(0) =~= inp);
        lemma_step_skip(inp, 0, render_op(items[0]), seq![93u8] + rest);
        let n = render_op(items[0]).len() as int;
        assert(pop(inp) == Some((items[0], n)));
        assert(inp[n] == inp.skip(n)[0]);
        assert(inp[n] == 93);
        assert(n >= 1);
        assert(seq![items[0]] =~= items);
    } else {
        let tail_items = items.skip(1);
        assert(render_ops_items(items) == render_op(items[0]) + seq![44u8] + render_ops_items(
            tail_items,
        ));
        let after = render_ops_items(tail_items) + seq![93u8] + rest;
        lemma_pop_render(items[0], seq![44u8] + after);
        vstd::seq_lib::lemma_concat_associative(render_ops_items(items), seq![93u8], rest);
        vstd::seq_lib::lemma_concat_associative(render_op(items[0]) + seq![44u8],
            render_ops_items(tail_items), seq![93u8] + rest);
        vstd::seq_lib::lemma_concat_associative(render_op(items[0]), seq![44u8],
            render_ops_items(tail_items) + (seq![93u8] + rest));
        vstd::seq_lib::lemma_concat_associative(render_ops_items(tail_items), seq![93u8], rest);
        assert(inp == render_op(items[0]) + (seq![44u8] + after));
        assert(inp.skip(0) =~= inp);
        lemma_step_skip(inp, 0, render_op(items[0]), seq![44u8] + after);
        let n = render_op(items[0]).len() as int;
        assert(pop(inp) == Some((items[0], n)));
        assert(inp[n] == inp.skip(n)[0]);
        assert(inp[n] == 44);
        lemma_step_skip(inp, n, seq![44u8], after);
        assert(inp.skip(n + 1) =~= after);
        lemma_pops_rest_render(tail_items, rest);
        assert(seq![items[0]] + tail_items =~= items);
    }
}

/// Parsing a rendered ops collection gives it back.
pub proof fn lemma_pops_render(items: Seq<OpV>, rest: Seq<u8>)
    ensures
        pops(render_ops(items) + rest) == Some((items, render_ops(items).len() as int)),
{
    reveal(crate::codec::pops);
    reveal(crate::codec::render_ops);
    reveal(crate::codec::render_op);
    let inp = render_ops(items) + rest;
    if items.len() == 0 {
        assert(inp[0] == 91 && inp[1] == 93);
        assert(items =~= Seq::<OpV>::empty());
    } else {
        assert(inp =~= seq![91u8] + (render_ops_items(items) + seq![93u8] + rest));
        assert(inp[0] == 91);
        assert(render_op(items[0])[0] == l_id_open()[0]);
        assert(l_id_open()[0] == 123);
        assert(render_ops_items(items)[0] == render_op(items[0])[0]);
        assert(inp[1] == render_ops_items(items)[0]);
        assert(inp[1] != 93);
        assert(inp.skip(1) =~= render_ops_items(items) + seq![93u8] + rest);
        lemma_pops_rest_render(items, rest);
    }
}

/// Append the rendering of a ops collection to `out`.
pub fn write_ops(out: &mut Vec<u8>, items: &Vec<PendingOperation>)
    ensures
        final(out)@ == old(out)@ + render_ops(items@.map_values(|o: PendingOperation| o@)),
{
    let ghost iv = items@.map_values(|o: PendingOperation| o@);
    out.push(91);
    let n = items.len();
    let mut i: usize = 0;
    while i < n
        invariant
            n == items@.len(),
            iv == items@.map_values(|o: PendingOperation| o@),
            iv.len() == n,
            i <= n,
            i == 0 ==> out@ == old(out)@ + seq![91u8],
            i > 0 ==> out@ == old(out)@ + seq![91u8] + render_ops_items(iv.take(i as int)),
        decreases n - i,
    {
        if i > 0 {
            out.push(44);
        }
        write_op(out, &items[i]);
        proof {
            assert(iv[i as int] == items@[i as int]@);
            if i == 0 {
                assert(iv.take(1) =~= seq![iv[0]]);
                assert(seq![iv[0]].len() == 1 && seq![iv[0]][0] == iv[0]);
                assert(render_ops_items(seq![iv[0]]) == render_op(iv[0]));
                assert(out@ =~= old(out)@ + seq![91u8] + render_ops_items(iv.take(1)));
            } else {
                lemma_render_ops_items_snoc(iv.take(i as int), iv[i as int]);
                assert(iv.take(i as int).push(iv[i as int]) =~= iv.take(i + 1));
                assert(out@ =~= old(out)@ + seq![91u8] + render_ops_items(iv.take(i + 1)));
            }
        }
        i += 1;
    }
    out.push(93);
    proof {
        reveal(crate::codec::render_ops);
        if n == 0 {
            assert(out@ =~= old(out)@ + render_ops(iv));
        } else {
            assert(iv.take(n as int) =~= iv);
            assert(out@ =~= old(out)@ + render_ops(iv));
        }
    }
}

/// Parse a ops collection at `pos`; mirrors `pops`.
#[verifier::rlimit(100)]
#[verifier::spinoff_prover]
pub fn parse_ops(inp: &[u8], pos: usize) -> (r: Option<(Vec<PendingOperation>, usize)>)
    requires
        pos <= inp@.len(),
    ensures
        r is None ==> pops(inp@.skip(pos as int)) is None,
        r is Some ==> pops(inp@.skip(pos as int)) is Some
            && got(r)@.map_values(|o: PendingOperation| o@) == got(pops(inp@.skip(pos as int)))
            && used(r) == pos + used(pops(inp@.skip(pos as int)))
            && pos < used(r) <= inp@.len(),
{
    let ghost whole = inp@.skip(pos as int);
    proof {
        reveal(crate::codec::pops);
    }
    if pos >= inp.len() || inp[pos] != 91 {
        proof {
            reveal(crate::codec::pops);
            assert(pops(whole) is None);
        }
        return None;
    }
    if inp.len() - pos >= 2 && inp[pos + 1] == 93 {
        let empty_acc: Vec<PendingOperation> = Vec::new();
        proof {
            reveal(crate::codec::pops);
            assert(empty_acc@.map_values(|o: PendingOperation| o@) =~= Seq::<OpV>::empty());
            assert(pops(whole) is Some);
            assert(used(pops(whole)) == 2);
            assert(got(pops(whole)) =~= Seq::<OpV>::empty());
        }
        return Some((empty_acc, pos + 2));
    }
    let ghost body0 = inp@.skip(pos + 1);
    let mut acc: Vec<PendingOperation> = Vec::new();
    let mut p: usize = pos + 1;
    loop
        invariant
            pos + 1 <= p <= inp@.len(),
            whole == inp@.skip(pos as int),
            body0 == inp@.skip(pos + 1),
            whole.len() > 0 && whole[0] == 91,
            !(whole.len() >= 2 && whole[1] == 93),
            whole.skip(1) == body0,
            pops_rest(body0) == (match pops_rest(inp@.skip(p as int)) {
                Some(t) => Some::<(Seq<OpV>, int)>(
                    (acc@.map_values(|o: PendingOperation| o@) + t.0, t.1 + p - (pos + 1)),
                ),
                None => None::<(Seq<OpV>, int)>,
            }),
        decreases inp@.len() - p,
    {
        let ghost region = inp@.skip(p as int);
        let ghost accv = acc@.map_values(|o: PendingOperation| o@);
        let (v, p2) = match parse_op(inp, p) {
            Some(t) => t,
            None => {
                proof {
                    reveal(crate::codec::pops);
                    assert(pops_rest(region) is None);
                    assert(pops_rest(body0) is None);
                    assert(pops(whole) is None);
                }
                return None;
            },
        };
        let ghost vv = v@;
        acc.push(v);
        proof {
            assert(acc@.map_values(|o: PendingOperation| o@) =~= accv + seq![vv]);
        }
        if p2 >= inp.len() {
            proof {
                reveal(crate::codec::pops);
                assert(pops_rest(region) is None);
                assert(pops_rest(body0) is None);
                assert(pops(whole) is None);
            }
            return None;
        }
        let cch: u8 = inp[p2];
        assert(region[p2 - p] == cch);
        if cch == 93 {
            proof {
                reveal(crate::codec::pops);
                assert(pops_rest(region) == Some((seq![vv], p2 + 1 - p)));
                assert(accv + seq![vv] =~= acc@.map_values(|o: PendingOperation| o@));
                assert(pops_rest(body0) == Some((acc@.map_values(|o: PendingOperation| o@), p2 + 1 - (pos + 1))));
                assert(pops(whole) is Some);
                assert(got(pops(whole)) == acc@.map_values(|o: PendingOperation| o@));
                assert(used(pops(whole)) == p2 + 1 - pos);
            }
            return Some((acc, p2 + 1));
        } else if cch == 44 {
            proof {
                assert(inp@.skip(p2 + 1) =~= region.skip(p2 + 1 - p));
                assert forall|t0: Seq<OpV>, t1: int|
                    pops_rest(region.skip(p2 + 1 - p)) == Some::<(Seq<OpV>, int)>(
                        (t0, t1),
                    ) implies (accv + (seq![vv] + t0) == acc@.map_values(|o: PendingOperation| o@) + t0) by {
                    assert(accv + (seq![vv] + t0) =~= (accv + seq![vv]) + t0);
                }
            }
            p = p2 + 1;
        } else {
            proof {
                reveal(crate::codec::pops);
                assert(pops_rest(region) is None);
                assert(pops_rest(body0) is None);
                assert(pops(whole) is None);
            }
            return None;
        }
    }
}

/// The rendering of the items of a notes collection, comma-separated.
pub open spec fn render_notes_items(items: Seq<NoteV>) -> Seq<u8>
    decreases items.len(),
{
    if items.len() == 0 {
        Seq::empty()
    } else if items.len() == 1 {
        render_note(items[0])
    } else {
        render_note(items[0]) + seq![44u8] + render_notes_items(items.skip(1))
    }
}

/// The canonical rendering of a notes collection.
#[verifier::opaque]
pub open spec fn render_notes(items: Seq<NoteV>) -> Seq<u8> {
    if items.len() == 0 {
        seq![91u8, 93u8]
    } else {
        seq![91u8] + render_notes_items(items) + seq![93u8]
    }
}

/// Parse the items of a notes collection after the opening bracket,
/// including the closing bracket.
pub open spec fn pnotes_rest(inp: Seq<u8>) -> Option<(Seq<NoteV>, int)>
    decreases inp.len(),
{
    match pnote(inp) {
        None => None,
        Some((v, n)) => if n < 1 || n >= inp.len() {
            None
        } else if inp[n] == 44 {
            match pnotes_rest(inp.skip(n + 1)) {
                None => None,
                Some((vs, m)) => Some((seq![v] + vs, n + 1 + m)),
            }
        } else if inp[n] == 93 {
            Some((seq![v], n + 1))
        } else {
            None
        },
    }
}

/// Parse a notes collection; mirrors `render_notes`.
#[verifier::opaque]
pub open spec fn pnotes(inp: Seq<u8>) -> Option<(Seq<NoteV>, int)> {
    if inp.len() >= 2 && inp[0] == 91 && inp[1] == 93 {
        Some((Seq::empty(), 2))
    } else if inp.len() >= 1 && inp[0] == 91 {
        match pnotes_rest(inp.skip(1)) {
            None => None,
            Some((vs, m)) => Some((vs, m + 1)),
        }
    } else {
        None
    }
}

proof fn lemma_render_notes_items_snoc(items: Seq<NoteV>, x: NoteV)
    requires
        items.len() >= 1,
    ensures
        render_notes_items(items.push(x)) == render_notes_items(items) + seq![44u8] + render_note(x),
    decreases items.len(),
{
    if items.len() == 1 {
        assert(items.push(x).skip(1) =~= seq![x]);
        assert(seq![x].len() == 1 && seq![x][0] == x);
        assert(render_notes_items(seq![x]) == render_note(x));
        assert(items.push(x)[0] == items[0]);
    } else {
        assert(items.push(x).skip(1) =~= items.skip(1).push(x));
        lemma_render_notes_items_snoc(items.skip(1), x);
        assert(items.push(x)[0] == items[0]);
        assert(render_note(items[0]) + seq![44u8] + (render_notes_items(items.skip(1)) + seq![44u8]
            + render_note(x)) =~= (render_note(items[0]) + seq![44u8] + render_notes_items(
            items.skip(1),
        )) + seq![44u8] + render_note(x));
    }
}

/// Parsing rendered notes items (with the closing bracket) gives them back.
#[verifier::rlimit(100)]
#[verifier::spinoff_prover]
proof fn lemma_pnotes_rest_render(items: Seq<NoteV>, rest: Seq<u8>)
    requires
        items.len() >= 1,
    ensures
        pnotes_rest(render_notes_items(items) + seq![93u8] + rest) == Some(
            (items, render_notes_items(items).len() + 1int),
        ),
    decreases items.len(),
{
    reveal(crate::codec::render_note);
    let inp = render_notes_items(items) + seq![93u8] + rest;
    if items.len() == 1 {
        assert(render_notes_items(items) == render_note(items[0]));
        lemma_pnote_render(items[0], seq![93u8] + rest);
        assert(inp =~= render_note(items[0]) + (seq![93u8] + rest));
        assert(inp.skip(0) =~= inp);
        lemma_step_skip(inp, 0, render_note(items[0]), seq![93u8] + rest);
        let n = render_note(items[0]).len() as int;
        assert(inp[n] == inp.skip(n)[0]);
        assert(inp[n] == 93);
        assert(n >= 1);
        assert(seq![items[0]] =~= items);
    } else {
        let tail_items = items.skip(1);
        assert(render_notes_items(items) == render_note(items[0]) + seq![44u8] + render_notes_items(
            tail_items,
        ));
        let after = render_notes_items(tail_items) + seq![93u8] + rest;
        lemma_pnote_render(items[0], seq![44u8] + after);
        assert(inp =~= render_note(items[0]) + (seq![44u8] + after));
        assert(inp.skip(0) =~= inp);
        lemma_step_skip(inp, 0, render_note(items[0]), seq![44u8] + after);
        let n = render_note(items[0]).len() as int;
        assert(inp[n] == inp.skip(n)[0]);
        assert(inp[n] == 44);
        lemma_step_skip(inp, n, seq![44u8], after);
        assert(inp.skip(n + 1) =~= after);
        lemma_pnotes_rest_render(tail_items, rest);
        assert(seq![items[0]] + tail_items =~= items);
    }
}

/// Parsing a rendered notes collection gives it back.
pub proof fn lemma_pnotes_render(items: Seq<NoteV>, rest: Seq<u8>)
    ensures
        pnotes(render_notes(items) + rest) == Some((items, render_notes(items).len() as int)),
{
    reveal(crate::codec::pnotes);
    reveal(crate::codec::render_notes);
    reveal(crate::codec::render_note);
    let inp = render_notes(items) + rest;
    if items.len() == 0 {
        assert(inp[0] == 91 && inp[1] == 93);
        assert(items =~= Seq::<NoteV>::empty());
    } else {
        assert(inp =~= seq![91u8] + (render_notes_items(items) + seq![93u8] + rest));
        assert(inp[0] == 91);
        assert(render_note(items[0])[0] == l_id_open()[0]);
        assert(l_id_open()[0] == 123);
        assert(render_notes_items(items)[0] == render_note(items[0])[0]);
        assert(inp[1] == render_notes_items(items)[0]);
        assert(inp[1] != 93);
        assert(inp.skip(1) =~= render_notes_items(items) + seq![93u8] + rest);
        lemma_pnotes_rest_render(items, rest);
    }
}

/// Append the rendering of a notes collection to `out`.
pub fn write_notes(out: &mut Vec<u8>, items: &Vec<NotificationEvent>)
    ensures
        final(out)@ == old(out)@ + render_notes(items@.map_values(|o: NotificationEvent| o@)),
{
    let ghost iv = items@.map_values(|o: NotificationEvent| o@);
    out.push(91);
    let n = items.len();
    let mut i: usize = 0;
    while i < n
        invariant
            n == items@.len(),
            iv == items@.map_values(|o: NotificationEvent| o@),
            iv.len() == n,
            i <= n,
            i == 0 ==> out@ == old(out)@ + seq![91u8],
            i > 0 ==> out@ == old(out)@ + seq![91u8] + render_notes_items(iv.take(i as int)),
        decreases n - i,
    {
        if i > 0 {
            out.push(44);
        }
        write_note(out, &items[i]);
        proof {
            assert(iv[i as int] == items@[i as int]@);
            if i == 0 {
                assert(iv.take(1) =~= seq![iv[0]]);
                assert(seq![iv[0]].len() == 1 && seq![iv[0]][0] == iv[0]);
                assert(render_notes_items(seq![iv[0]]) == render_note(iv[0]));
                assert(out@ =~= old(out)@ + seq![91u8] + render_notes_items(iv.take(1)));
            } else {
                lemma_render_notes_items_snoc(iv.take(i as int), iv[i as int]);
                assert(iv.take(i as int).push(iv[i as int]) =~= iv.take(i + 1));
                assert(out@ =~= old(out)@ + seq![91u8] + render_notes_items(iv.take(i + 1)));
            }
        }
        i += 1;
    }
    out.push(93);
    proof {
        reveal(crate::codec::render_notes);
        if n == 0 {
            assert(out@ =~= old(out)@ + render_notes(iv));
        } else {
            assert(iv.take(n as int) =~= iv);
            assert(out@ =~= old(out)@ + render_notes(iv));
        }
    }
}

/// Parse a notes collection at `pos`; mirrors `pnotes`.
#[verifier::rlimit(100)]
#[verifier::spinoff_prover]
pub fn parse_notes(inp: &[u8], pos: usize) -> (r: Option<(Vec<NotificationEvent>, usize)>)
    requires
        pos <= inp@.len(),
    ensures
        r is None ==> pnotes(inp@.skip(pos as int)) is None,
        r is Some ==> pnotes(inp@.skip(pos as int)) is Some
            && got(r)@.map_values(|o: NotificationEvent| o@) == got(pnotes(inp@.skip(pos as int)))
            && used(r) == pos + used(pnotes(inp@.skip(pos as int)))
            && pos < used(r) <= inp@.len(),
{
    let ghost whole = inp@.skip(pos as int);
    proof {
        reveal(crate::codec::pnotes);
    }
    if pos >= inp.len() || inp[pos] != 91 {
        proof {
            reveal(crate::codec::pnotes);
            assert(pnotes(whole) is None);
        }
        return None;
    }
    if inp.len() - pos >= 2 && inp[pos + 1] == 93 {
        let empty_acc: Vec<NotificationEvent> = Vec::new();
        proof {
            reveal(crate::codec::pnotes);
            assert(empty_acc@.map_values(|o: NotificationEvent| o@) =~= Seq::<NoteV>::empty());
            assert(pnotes(whole) is Some);
            assert(used(pnotes(whole)) == 2);
            assert(got(pnotes(whole)) =~= Seq::<NoteV>::empty());
        }
        return Some((empty_acc, pos + 2));
    }
    let ghost body0 = inp@.skip(pos + 1);
    let mut acc: Vec<NotificationEvent> = Vec::new();
    let mut p: usize = pos + 1;
    loop
        invariant
            pos + 1 <= p <= inp@.len(),
            whole == inp@.skip(pos as int),
            body0 == inp@.skip(pos + 1),
            whole.len() > 0 && whole[0] == 91,
            !(whole.len() >= 2 && whole[1] == 93),
            whole.skip(1) == body0,
            pnotes_rest(body0) == (match pnotes_rest(inp@.skip(p as int)) {
                Some(t) => Some::<(Seq<NoteV>, int)>(
                    (acc@.map_values(|o: NotificationEvent| o@) + t.0, t.1 + p - (pos + 1)),
                ),
                None => None::<(Seq<NoteV>, int)>,
            }),
        decreases inp@.len() - p,
    {
        let ghost region = inp@.skip(p as int);
        let ghost accv = acc@.map_values(|o: NotificationEvent| o@);
        let (v, p2) = match parse_note(inp, p) {
            Some(t) => t,
            None => {
                proof {
                    reveal(crate::codec::pnotes);
                    assert(pnotes_rest(region) is None);
                    assert(pnotes_rest(body0) is None);
                    assert(pnotes(whole) is None);
                }
                return None;
            },
        };
        let ghost vv = v@;
        acc.push(v);
        proof {
            assert(acc@.map_values(|o: NotificationEvent| o@) =~= accv + seq![vv]);
        }
        if p2 >= inp.len() {
            proof {
                reveal(crate::codec::pnotes);
                assert(pnotes_rest(region) is None);
                assert(pnotes_rest(body0) is None);
                assert(pnotes(whole) is None);
            }
            return None;
        }
        let cch: u8 = inp[p2];
        assert(region[p2 - p] == cch);
        if cch == 93 {
            proof {
                reveal(crate::codec::pnotes);
                assert(pnotes_rest(region) == Some((seq![vv], p2 + 1 - p)));
                assert(accv + seq![vv] =~= acc@.map_values(|o: NotificationEvent| o@));
                assert(pnotes_rest(body0) == Some((acc@.map_values(|o: NotificationEvent| o@), p2 + 1 - (pos + 1))));
                assert(pnotes(whole) is Some);
                assert(got(pnotes(whole)) == acc@.map_values(|o: NotificationEvent| o@));
                assert(used(pnotes(whole)) == p2 + 1 - pos);
            }
            return Some((acc, p2 + 1));
        } else if cch == 44 {
            proof {
                assert(inp@.skip(p2 + 1) =~= region.skip(p2 + 1 - p));
                assert forall|t0: Seq<NoteV>, t1: int|
                    pnotes_rest(region.skip(p2 + 1 - p)) == Some::<(Seq<NoteV>, int)>(
                        (t0, t1),
                    ) implies (accv + (seq![vv] + t0) == acc@.map_values(|o: NotificationEvent| o@) + t0) by {
                    assert(accv + (seq![vv] + t0) =~= (accv + seq![vv]) + t0);
                }
            }
            p = p2 + 1;
        } else {
            proof {
                reveal(crate::codec::pnotes);
                assert(pnotes_rest(region) is None);
                assert(pnotes_rest(body0) is None);
                assert(pnotes(whole) is None);
            }
            return None;
        }
    }
}

/// The canonical rendering of one state record.
pub open spec fn render_state(v: StateV) -> Seq<u8> {
    l_st_open() + render_config(v.config) + l_st_ops() + render_ops(v.pending_operations) + l_st_notes() + render_notes(v.notifications) + l_st_sess() + render_sessmap(v.terminal_sessions) + l_close()
}

/// Parse one state record; mirrors `render_state`.
pub open spec fn pstate(inp: Seq<u8>) -> Option<(StateV, int)> {
    if !plit(inp, l_st_open()) {
        None
    } else {
        let i0 = l_st_open().len() as int;
        match pconfig(inp.skip(i0)) {
            None => None,
            Some((x0, n0)) => {
                let j1 = i0 + n0;
                if !plit(inp.skip(j1), l_st_ops()) {
                    None
                } else {
                    let i1 = j1 + l_st_ops().len();
                    match pops(inp.skip(i1)) {
                        None => None,
                        Some((x1, n1)) => {
                            let j2 = i1 + n1;
                            if !plit(inp.skip(j2), l_st_notes()) {
                                None
                            } else {
                                let i2 = j2 + l_st_notes().len();
                                match pnotes(inp.skip(i2)) {
                                    None => None,
                                    Some((x2, n2)) => {
                                        let j3 = i2 + n2;
                                        if !plit(inp.skip(j3), l_st_sess()) {
                                            None
                                        } else {
                                            let i3 = j3 + l_st_sess().len();
                                            match psessmap(inp.skip(i3)) {
                                                None => None,
                                                Some((x3, n3)) => {
                                                    let jf = i3 + n3;
                                                    if !plit(inp.skip(jf), l_close()) {
                                                        None
                                                    } else {
                                                        Some((StateV { config: x0, pending_operations: x1, notifications: x2, terminal_sessions: x3 }, jf + 1))
                                                    }
                                                },
                                            }
                                        }
                                    },
                                }
                            }
                        },
                    }
                }
            },
        }
    }
}

proof fn lemma_state_concat(pre: Seq<u8>, x: StateV)
    ensures
        pre + l_st_open() + render_config(x.config) + l_st_ops() + render_ops(
            x.pending_operations,
        ) + l_st_notes() + render_notes(x.notifications) + l_st_sess() + render_sessmap(
            x.terminal_sessions,
        ) + l_close() == pre + render_state(x),
{
    assert(pre + l_st_open() + render_config(x.config) + l_st_ops() + render_ops(
        x.pending_operations,
    ) + l_st_notes() + render_notes(x.notifications) + l_st_sess() + render_sessmap(
        x.terminal_sessions,
    ) + l_close() =~= pre + render_state(x));
}

/// Append the rendering of one state record to `out`.
pub fn write_state(out: &mut Vec<u8>, x: &PersistedState)
    ensures
        final(out)@ == old(out)@ + render_state(x@),
{
    let a_l_st_open: [u8; 10] = [123, 34, 99, 111, 110, 102, 105, 103, 34, 58];
    let a_l_st_ops: [u8; 22] = [44, 34, 112, 101, 110, 100, 105, 110, 103, 95, 111, 112, 101, 114, 97, 116, 105, 111, 110, 115, 34, 58];
    let a_l_st_notes: [u8; 17] = [44, 34, 110, 111, 116, 105, 102, 105, 99, 97, 116, 105, 111, 110, 115, 34, 58];
    let a_l_st_sess: [u8; 21] = [44, 34, 116, 101, 114, 109, 105, 110, 97, 108, 95, 115, 101, 115, 115, 105, 111, 110, 115, 34, 58];
    let a_close: [u8; 1] = [125];
    proof {
        assert(a_l_st_open@ =~= l_st_open());
        assert(a_l_st_ops@ =~= l_st_ops());
        assert(a_l_st_notes@ =~= l_st_notes());
        assert(a_l_st_sess@ =~= l_st_sess());
        assert(a_close@ =~= l_close());
    }
    write_lit(out, a_l_st_open.as_slice());
    write_config(out, &x.config);
    write_lit(out, a_l_st_ops.as_slice());
    write_ops(out, &x.pending_operations);
    write_lit(out, a_l_st_notes.as_slice());
    write_notes(out, &x.notifications);
    write_lit(out, a_l_st_sess.as_slice());
    write_sessmap(out, &x.terminal_sessions);
    write_lit(out, a_close.as_slice());
    proof {
        assert(x@.config == x.config@);
        assert(x@.pending_operations == x.pending_operations@.map_values(
            |o: PendingOperation| o@,
        ));
        assert(x@.notifications == x.notifications@.map_values(|o: NotificationEvent| o@));
        assert(x@.terminal_sessions == x.terminal_sessions@.map_values(|o: TerminalSession| o@));
        lemma_state_concat(old(out)@, x@);
        assert(out@ == old(out)@ + l_st_open() + render_config(x@.config) + l_st_ops()
            + render_ops(x@.pending_operations) + l_st_notes() + render_notes(x@.notifications)
            + l_st_sess() + render_sessmap(x@.terminal_sessions) + l_close());
    }
}

/// Parse one state record at `pos`; mirrors `pstate`.
#[verifier::rlimit(100)]
#[verifier::spinoff_prover]
pub fn parse_state(inp: &[u8], pos: usize) -> (r: Option<(PersistedState, usize)>)
    requires
        pos <= inp@.len(),
    ensures
        r is None ==> pstate(inp@.skip(pos as int)) is None,
        r is Some ==> pstate(inp@.skip(pos as int)) is Some
            && got(r)@ == got(pstate(inp@.skip(pos as int)))
            && used(r) == pos + used(pstate(inp@.skip(pos as int)))
            && pos < used(r) <= inp@.len(),
{
    let ghost whole = inp@.skip(pos as int);
    let a_l_st_open: [u8; 10] = [123, 34, 99, 111, 110, 102, 105, 103, 34, 58];
    let a_l_st_ops: [u8; 22] = [44, 34, 112, 101, 110, 100, 105, 110, 103, 95, 111, 112, 101, 114, 97, 116, 105, 111, 110, 115, 34, 58];
    let a_l_st_notes: [u8; 17] = [44, 34, 110, 111, 116, 105, 102, 105, 99, 97, 116, 105, 111, 110, 115, 34, 58];
    let a_l_st_sess: [u8; 21] = [44, 34, 116, 101, 114, 109, 105, 110, 97, 108, 95, 115, 101, 115, 115, 105, 111, 110, 115, 34, 58];
    let a_close: [u8; 1] = [125];
    proof {
        assert(a_l_st_open@ =~= l_st_open());
        assert(a_l_st_ops@ =~= l_st_ops());
        assert(a_l_st_notes@ =~= l_st_notes());
        assert(a_l_st_sess@ =~= l_st_sess());
        assert(a_close@ =~= l_close());
    }
    let q0 = match parse_lit(inp, pos, a_l_st_open.as_slice()) {
        Some(t) => t,
        None => {
            assert(pstate(whole) is None);
            return None;
        },
    };
    proof {
        lemma_skip_skip(inp@, pos as int, q0 - pos);
    }
    let (x0, q1) = match parse_config(inp, q0) {
        Some(t) => t,
        None => {
            assert(pstate(whole) is None);
            return None;
        },
    };
    proof {
        lemma_skip_skip(inp@, pos as int, q1 - pos);
    }
    let q2 = match parse_lit(inp, q1, a_l_st_ops.as_slice()) {
        Some(t) => t,
        None => {
            assert(pstate(whole) is None);
            return None;
        },
    };
    proof {
        lemma_skip_skip(inp@, pos as int, q2 - pos);
    }
    let (x1, q3) = match parse_ops(inp, q2) {
        Some(t) => t,
        None => {
            assert(pstate(whole) is None);
            return None;
        },
    };
    proof {
        lemma_skip_skip(inp@, pos as int, q3 - pos);
    }
    let q4 = match parse_lit(inp, q3, a_l_st_notes.as_slice()) {
        Some(t) => t,
        None => {
            assert(pstate(whole) is None);
            return None;
        },
    };
    proof {
        lemma_skip_skip(inp@, pos as int, q4 - pos);
    }
    let (x2, q5) = match parse_notes(inp, q4) {
        Some(t) => t,
        None => {
            assert(pstate(whole) is None);
            return None;
        },
    };
    proof {
        lemma_skip_skip(inp@, pos as int, q5 - pos);
    }
    let q6 = match parse_lit(inp, q5, a_l_st_sess.as_slice()) {
        Some(t) => t,
        None => {
            assert(pstate(whole) is None);
            return None;
        },
    };
    proof {
        lemma_skip_skip(inp@, pos as int, q6 - pos);
    }
    let (x3, q7) = match parse_sessmap(inp, q6) {
        Some(t) => t,
        None => {
            assert(pstate(whole) is None);
            return None;
        },
    };
    proof {
        lemma_skip_skip(inp@, pos as int, q7 - pos);
    }
    let qf = match parse_lit(inp, q7, a_close.as_slice()) {
        Some(t) => t,
        None => {
            assert(pstate(whole) is None);
            return None;
        },
    };
    let r = PersistedState { config: x0, pending_operations: x1, notifications: x2, terminal_sessions: x3 };
    proof {
        assert(got(pstate(whole)) =~= r@);
        assert(used(pstate(whole)) == qf - pos);
    }
    Some((r, qf))
}

/// Parsing a rendered state record gives it back.
#[verifier::rlimit(100)]
#[verifier::spinoff_prover]
pub proof fn lemma_pstate_render(v: StateV, rest: Seq<u8>)
    ensures
        pstate(render_state(v) + rest) == Some((v, render_state(v).len() as int)),
{
    let inp = render_state(v) + rest;
    let r9 = rest;
    let r8 = l_close() + r9;
    let r7 = render_sessmap(v.terminal_sessions) + r8;
    let r6 = l_st_sess() + r7;
    let r5 = render_notes(v.notifications) + r6;
    let r4 = l_st_notes() + r5;
    let r3 = render_ops(v.pending_operations) + r4;
    let r2 = l_st_ops() + r3;
    let r1 = render_config(v.config) + r2;
    let r0 = l_st_open() + r1;
    assert(inp =~= r0);
    assert(inp.skip(0) =~= inp);
    crate::json::lemma_plit_render(l_st_open(), r1);
    lemma_step_skip(inp, 0, l_st_open(), r1);
    let c0 = l_st_open().len() as int;
    lemma_pconfig_render(v.config, r2);
    lemma_step_skip(inp, c0, render_config(v.config), r2);
    let c1 = c0 + render_config(v.config).len();
    crate::json::lemma_plit_render(l_st_ops(), r3);
    lemma_step_skip(inp, c1, l_st_ops(), r3);
    let c2 = c1 + l_st_ops().len();
    lemma_pops_render(v.pending_operations, r4);
    lemma_step_skip(inp, c2, render_ops(v.pending_operations), r4);
    let c3 = c2 + render_ops(v.pending_operations).len();
    crate::json::lemma_plit_render(l_st_notes(), r5);
    lemma_step_skip(inp, c3, l_st_notes(), r5);
    let c4 = c3 + l_st_notes().len();
    lemma_pnotes_render(v.notifications, r6);
    lemma_step_skip(inp, c4, render_notes(v.notifications), r6);
    let c5 = c4 + render_notes(v.notifications).len();
    crate::json::lemma_plit_render(l_st_sess(), r7);
    lemma_step_skip(inp, c5, l_st_sess(), r7);
    let c6 = c5 + l_st_sess().len();
    lemma_psessmap_render(v.terminal_sessions, r8);
    lemma_step_skip(inp, c6, render_sessmap(v.terminal_sessions), r8);
    let c7 = c6 + render_sessmap(v.terminal_sessions).len();
    crate::json::lemma_plit_render(l_close(), r9);
    lemma_step_skip(inp, c7, l_close(), r9);
    let c8 = c7 + l_close().len();
    assert(pstate(inp) == Some((StateV { config: v.config, pending_operations: v.pending_operations, notifications: v.notifications, terminal_sessions: v.terminal_sessions }, c8)));
    assert(StateV { config: v.config, pending_operations: v.pending_operations, notifications: v.notifications, terminal_sessions: v.terminal_sessions } =~= v);
    assert(render_state(v).len() == c8);
}

/// The persisted state parsed from the whole input, nothing left over.
pub open spec fn pstate_full(inp: Seq<u8>) -> Option<StateV> {
    match pstate(inp) {
        Some(t) => if t.1 == inp.len() {
            Some(t.0)
        } else {
            None
        },
        None => None,
    }
}

/// The file content for a persisted state.
pub fn render_state_vec(x: &PersistedState) -> (r: Vec<u8>)
    ensures
        r@ == render_state(x@),
{
    let mut out: Vec<u8> = Vec::new();
    write_state(&mut out, x);
    proof {
        assert(Seq::<u8>::empty() + render_state(x@) =~= render_state(x@));
    }
    out
}

/// Parse a whole file as a persisted state.
pub fn parse_state_file(content: &[u8]) -> (r: Option<PersistedState>)
    ensures
        r is None ==> pstate_full(content@) is None,
        r is Some ==> pstate_full(content@) == Some(r->0@),
{
    proof {
        assert(content@.skip(0) =~= content@);
    }
    match parse_state(content, 0) {
        None => None,
        Some((v, p)) => {
            if p == content.len() {
                Some(v)
            } else {
                None
            }
        },
    }
}

/// The file content for an envelope.
pub fn render_env_vec(e: &EncryptedData) -> (r: Vec<u8>)
    ensures
        r@ == render_env(e@),
{
    let mut out: Vec<u8> = Vec::new();
    write_env(&mut out, e);
    proof {
        assert(Seq::<u8>::empty() + render_env(e@) =~= render_env(e@));
    }
    out
}

/// Parse a whole file as an envelope.
pub fn parse_env_file(content: &[u8]) -> (r: Option<EncryptedData>)
    ensures
        r is None ==> penv_full(content@) is None,
        r is Some ==> penv_full(content@) == Some(r->0@),
{
    proof {
        assert(content@.skip(0) =~= content@);
    }
    match parse_env(content, 0) {
        None => None,
        Some((v, p)) => {
            if p == content.len() {
                Some(v)
            } else {
                None
            }
        },
    }
}

/// Parsing a rendered state file gives the state back, whole.
pub proof fn lemma_pstate_full_render(v: StateV)
    ensures
        pstate_full(render_state(v)) == Some(v),
{
    lemma_pstate_render(v, Seq::empty());
    assert(render_state(v) + Seq::<u8>::empty() =~= render_state(v));
}

/// Parsing a rendered envelope file gives the envelope back, whole.
pub proof fn lemma_penv_full_render(e: EnvV)
    ensures
        penv_full(render_env(e)) == Some(e),
{
    lemma_penv_render(e, Seq::empty());
    assert(render_env(e) + Seq::<u8>::empty() =~= render_env(e));
}

/// A file saved in one mode never parses in the other: a state file is
/// no envelope, and an envelope file is no state.
pub proof fn lemma_mode_mismatch(v: StateV, e: EnvV)
    ensures
        penv_full(render_state(v)) is None,
        pstate_full(render_env(e)) is None,
{
    let rs = render_state(v);
    let re = render_env(e);
    lemma_pstate_render(v, Seq::empty());
    assert(rs + Seq::<u8>::empty() =~= rs);
    assert(pstate(rs) is Some);
    assert(plit(rs, l_st_open()));
    assert(rs[2] == rs.take(l_st_open().len() as int)[2]);
    assert(rs[2] == 99);
    if plit(rs, l_env_open()) {
        assert(rs[2] == rs.take(l_env_open().len() as int)[2]);
        assert(false);
    }
    assert(penv(rs) is None);
    lemma_penv_render(e, Seq::empty());
    assert(re + Seq::<u8>::empty() =~= re);
    assert(penv(re) is Some);
    assert(plit(re, l_env_open()));
    assert(re[2] == re.take(l_env_open().len() as int)[2]);
    assert(re[2] == 115);
    if plit(re, l_st_open()) {
        assert(re[2] == re.take(l_st_open().len() as int)[2]);
        assert(false);
    }
    assert(pstate(re) is None);
}

} // verus!
