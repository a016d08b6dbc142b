//! The executable CSI scanner and stripper.
//!
//! [`find_csi_sequence`] locates the first CSI sequence of a byte buffer and
//! reports its exact span, or that the leftmost introducer is malformed, or
//! that none occurs. [`strip_ansi`] removes every well-formed sequence from a
//! string and keeps all other bytes verbatim.

use vstd::prelude::*;
use vstd::slice::slice_subrange;
use vstd::string::StringSliceAdditionalSpecFns;
use vstd::utf8::decode_utf8;
use vstd::utf8::encode_utf8;
use vstd::utf8::encode_utf8_valid_utf8;
use vstd::utf8::valid_utf8;

use crate::csi::csi_final;
use crate::csi::csi_intermediate;
use crate::csi::csi_parameter;
use crate::csi::first_introducer;
use crate::csi::intermediate_pred;
use crate::csi::introducer_at;
use crate::csi::lemma_first_introducer_from_is;
use crate::csi::lemma_first_introducer_from_props;
use crate::csi::lemma_run_end_is;
use crate::csi::lemma_strip_spec_stalled;
use crate::csi::lemma_strip_valid_utf8;
use crate::csi::parameter_pred;
use crate::csi::scan_found;
use crate::csi::scan_malformed;
use crate::csi::sequence_end;
use crate::csi::strip_spec;
use crate::csi::BRACKET;
use crate::csi::ESC;

verus! {

/// The outcome of one scan of a byte buffer.
#[derive(Clone, Copy, Debug, PartialEq, Eq, Structural)]
pub enum ScanOutcome {
    /// A well-formed CSI sequence spans the inclusive byte range
    /// `start..=end`, introducer and final byte included.
    Found { start: usize, end: usize },
    /// An introducer occurs, but the leftmost one is not completed by a
    /// final byte before the buffer ends.
    Malformed,
    /// No introducer occurs: the buffer is plain text.
    NotFound,
}

/// A parameter byte: digits and `:;<=>?`.
#[inline]
pub fn is_parameter_byte(b: &u8) -> (r: bool)
    ensures
        r == csi_parameter(*b),
{
    0x30 <= *b && *b <= 0x3f
}

/// An intermediate byte: space and the punctuation `!"#$%&'()*+,-./`.
#[inline]
pub fn is_intermediate_byte(b: &u8) -> (r: bool)
    ensures
        r == csi_intermediate(*b),
{
    0x20 <= *b && *b <= 0x2f
}

/// A final byte: `@`, the letters, and `[\]^_` and `` `{|}~ ``.
#[inline]
pub fn is_final_byte(b: &u8) -> (r: bool)
    ensures
        r == csi_final(*b),
{
    0x40 <= *b && *b <= 0x7e
}

/// Scans `s` for its first CSI sequence: the leftmost introducer wins, then
/// the parameter run, the intermediate run and the one candidate final byte
/// are consumed in that fixed order.
pub fn find_csi_sequence(s: &[u8]) -> (r: ScanOutcome)
    ensures
        match r {
            ScanOutcome::Found { start, end } => {
                &&& scan_found(s@)
                &&& first_introducer(s@) == Some(start as int)
                &&& end as int == sequence_end(s@, start as int)
                &&& start + 2 <= end < s@.len()
            },
            ScanOutcome::Malformed => scan_malformed(s@),
            ScanOutcome::NotFound => first_introducer(s@) is None,
        },
{
    let n: usize = s.len();
    let mut i: usize = 0;
    while n > 0 && i < n - 1
        invariant
            n == s@.len(),
            i <= n,
            forall|j: int| 0 <= j < i ==> !introducer_at(s@, j),
        decreases n - i,
    {
        if s[i] == 0x1b && s[i + 1] == 0x5b {
            proof {
                assert(s@[i as int] == ESC && s@[i as int + 1] == BRACKET);
                lemma_first_introducer_from_is(s@, 0, i as int);
            }
            let mut j: usize = i + 2;
            while j < n && is_parameter_byte(&s[j])
                invariant
                    n == s@.len(),
                    i + 2 <= j <= n,
                    forall|k: int| i + 2 <= k < j ==> csi_parameter(s@[k]),
                decreases n - j,
            {
                j += 1;
            }
            proof {
                lemma_run_end_is(s@, i as int + 2, parameter_pred(), j as int);
            }
            let mut m: usize = j;
            while m < n && is_intermediate_byte(&s[m])
                invariant
                    n == s@.len(),
                    j <= m <= n,
                    forall|k: int| j <= k < m ==> csi_intermediate(s@[k]),
                decreases n - m,
            {
                m += 1;
            }
            proof {
                lemma_run_end_is(s@, j as int, intermediate_pred(), m as int);
                assert(sequence_end(s@, i as int) == m as int);
            }
            if m < n && is_final_byte(&s[m]) {
                return ScanOutcome::Found { start: i, end: m };
            }
            return ScanOutcome::Malformed;
        }
        i += 1;
    }
    proof {
        lemma_first_introducer_from_props(s@, 0);
        if let Some(k) = first_introducer(s@) {
            assert(!introducer_at(s@, k));
        }
    }
    ScanOutcome::NotFound
}

/// Appends `s[from..to]` to `out`, byte by byte.
fn append_slice_range(out: &mut Vec<u8>, s: &[u8], from: usize, to: usize)
    requires
        from <= to <= s@.len(),
    ensures
        final(out)@ == old(out)@ + s@.subrange(from as int, to as int),
{
    let mut k: usize = from;
    while k < to
        invariant
            from <= k <= to <= s@.len(),
            out@ == old(out)@ + s@.subrange(from as int, k as int),
        decreases to - k,
    {
        out.push(s[k]);
        proof {
            assert(out@ =~= old(out)@ + s@.subrange(from as int, k as int + 1));
        }
        k += 1;
    }
}

/// Relies on `String::from_utf8`: a byte vector that is a valid UTF-8
/// encoding becomes the string that decodes it; the error branch is
/// unreachable for such bytes.
#[verifier::external_body]
fn string_from_utf8(v: Vec<u8>) -> (r: String)
    requires
        valid_utf8(v@),
    ensures
        r@ == decode_utf8(v@),
{
    String::from_utf8(v).unwrap()
}

/// Removes every well-formed CSI sequence from `s` and keeps all other
/// bytes -- malformed or unterminated introducer sequences included --
/// exactly as they are.
pub fn strip_ansi(s: &str) -> (r: String)
    ensures
        encode_utf8(r@) == strip_spec(s.spec_bytes()),
        r@ == decode_utf8(strip_spec(s.spec_bytes())),
{
    let bytes: &[u8] = s.as_bytes();
    let mut out: Vec<u8> = Vec::new();
    let mut rest: &[u8] = bytes;
    proof {
        assert(out@ + strip_spec(rest@) =~= strip_spec(bytes@));
    }
    loop
        invariant_except_break
            strip_spec(bytes@) == out@ + strip_spec(rest@),
        ensures
            out@ == strip_spec(bytes@),
        decreases rest@.len(),
    {
        match find_csi_sequence(rest) {
            ScanOutcome::Found { start, end } => {
                let ghost prev = out@;
                let ghost whole = rest@;
                append_slice_range(&mut out, rest, 0, start);
                let len = rest.len();
                rest = slice_subrange(rest, end + 1, len);
                proof {
                    assert(strip_spec(whole) == whole.subrange(0, start as int) + strip_spec(
                        rest@,
                    ));
                    assert(prev + strip_spec(whole) =~= out@ + strip_spec(rest@));
                }
            },
            _ => {
                append_slice_range(&mut out, rest, 0, rest.len());
                proof {
                    lemma_strip_spec_stalled(rest@);
                    assert(rest@.subrange(0, rest@.len() as int) =~= rest@);
                }
                break;
            },
        }
    }
    proof {
        encode_utf8_valid_utf8(s@);
        lemma_strip_valid_utf8(bytes@);
        vstd::utf8::decode_utf8_encode_utf8(strip_spec(bytes@));
    }
    string_from_utf8(out)
}

} // verus!
