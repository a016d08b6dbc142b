//! Mathematical model of the ECMA-48 CSI grammar and of the scan that finds
//! the first well-formed CSI sequence in a byte buffer.
//!
//! A CSI sequence is the two introducer bytes `0x1B 0x5B` ("ESC" then "["),
//! then zero or more parameter bytes (`0x30..=0x3F`), then zero or more
//! intermediate bytes (`0x20..=0x2F`), then exactly one final byte
//! (`0x40..=0x7E`).

use vstd::prelude::*;
use vstd::utf8::is_char_boundary_iff_not_is_continuation_byte;
use vstd::utf8::is_leading_byte_width_1;
use vstd::utf8::length_of_first_scalar;
use vstd::utf8::pop_first_scalar;
use vstd::utf8::valid_utf8;
use vstd::utf8::valid_utf8_concat;
use vstd::utf8::valid_utf8_split;

verus! {

/// The escape byte, first byte of the introducer.
pub const ESC: u8 = 0x1b;

/// The opening bracket, second byte of the introducer.
pub const BRACKET: u8 = 0x5b;

/// A parameter byte: digits and `:;<=>?`.
pub open spec fn csi_parameter(b: u8) -> bool {
    0x30 <= b && b <= 0x3f
}

/// An intermediate byte: space and punctuation `!"#$%&'()*+,-./`.
pub open spec fn csi_intermediate(b: u8) -> bool {
    0x20 <= b && b <= 0x2f
}

/// A final byte: `@`, letters, `[\]^_` and `` `{|}~ ``.
pub open spec fn csi_final(b: u8) -> bool {
    0x40 <= b && b <= 0x7e
}

/// The two-byte introducer `ESC [` begins at offset `i` of `s`.
pub open spec fn introducer_at(s: Seq<u8>, i: int) -> bool {
    &&& 0 <= i
    &&& i + 1 < s.len()
    &&& s[i] == ESC
    &&& s[i + 1] == BRACKET
}

/// The offset of the leftmost introducer at or after offset `i`, if any.
pub open spec fn first_introducer_from(s: Seq<u8>, i: int) -> Option<int>
    recommends
        0 <= i,
    decreases s.len() - i,
    when 0 <= i
{
    if i + 1 >= s.len() {
        None
    } else if s[i] == ESC && s[i + 1] == BRACKET {
        Some(i)
    } else {
        first_introducer_from(s, i + 1)
    }
}

/// The offset of the leftmost introducer in `s`, if any.
pub open spec fn first_introducer(s: Seq<u8>) -> Option<int> {
    first_introducer_from(s, 0)
}

/// The first offset at or after `i` whose byte fails `p`, or the end of `s`.
pub open spec fn run_end(s: Seq<u8>, i: int, p: spec_fn(u8) -> bool) -> int
    recommends
        0 <= i <= s.len(),
    decreases s.len() - i,
    when i <= s.len()
{
    if i < 0 || i >= s.len() {
        i
    } else if p(s[i]) {
        run_end(s, i + 1, p)
    } else {
        i
    }
}

/// The parameter-byte predicate as a function value.
pub open spec fn parameter_pred() -> spec_fn(u8) -> bool {
    |b: u8| csi_parameter(b)
}

/// The intermediate-byte predicate as a function value.
pub open spec fn intermediate_pred() -> spec_fn(u8) -> bool {
    |b: u8| csi_intermediate(b)
}

/// For an introducer at offset `i`: the offset of the one byte that must be a
/// final byte, after the parameter run and then the intermediate run.
pub open spec fn sequence_end(s: Seq<u8>, i: int) -> int {
    run_end(s, run_end(s, i + 2, parameter_pred()), intermediate_pred())
}

/// The scan of `s` finds a well-formed CSI sequence: there is an introducer,
/// and the byte after the leftmost introducer's parameter and intermediate
/// runs exists and is a final byte.
pub open spec fn scan_found(s: Seq<u8>) -> bool {
    match first_introducer(s) {
        Some(i) => sequence_end(s, i) < s.len() && csi_final(s[sequence_end(s, i)]),
        None => false,
    }
}

/// The scan of `s` finds a malformed sequence: there is an introducer, but the
/// leftmost one is not completed by a final byte before the buffer ends.
pub open spec fn scan_malformed(s: Seq<u8>) -> bool {
    first_introducer(s) is Some && !scan_found(s)
}

/// No introducer occurs anywhere in `s`.
pub open spec fn no_introducer(s: Seq<u8>) -> bool {
    forall|j: int| !introducer_at(s, j)
}

/// The runs of a whole well-formed sequence, split at `p`: parameter bytes
/// before `p`, intermediate bytes from `p` up to the final byte, which is
/// the last byte.
pub open spec fn is_csi_sequence_split(c: Seq<u8>, p: int) -> bool {
    &&& 2 <= p <= c.len() - 1
    &&& (forall|j: int| 2 <= j < p ==> csi_parameter(c[j]))
    &&& (forall|j: int| p <= j < c.len() - 1 ==> csi_intermediate(c[j]))
    &&& csi_final(c[c.len() - 1])
}

/// `c` is exactly one well-formed CSI sequence: the introducer, a parameter
/// run, an intermediate run, and the final byte that ends it.
pub open spec fn is_csi_sequence(c: Seq<u8>) -> bool {
    &&& c.len() >= 3
    &&& c[0] == ESC
    &&& c[1] == BRACKET
    &&& exists|p: int| is_csi_sequence_split(c, p)
}

/// No two adjacent bytes of `s` are both `ESC`.
pub open spec fn no_adjacent_escape(s: Seq<u8>) -> bool {
    forall|j: int| 0 <= j < s.len() - 1 ==> !(#[trigger] s[j] == ESC && s[j + 1] == ESC)
}

/// A run stays inside `s`, every byte of it satisfies `p`, and it stops at
/// the end of `s` or at the first byte that fails `p`.
pub proof fn lemma_run_end_props(s: Seq<u8>, i: int, p: spec_fn(u8) -> bool)
    requires
        0 <= i <= s.len(),
    ensures
        i <= run_end(s, i, p) <= s.len(),
        forall|j: int| i <= j < run_end(s, i, p) ==> p(s[j]),
        run_end(s, i, p) < s.len() ==> !p(s[run_end(s, i, p)]),
    decreases s.len() - i,
{
    if i < s.len() && p(s[i]) {
        lemma_run_end_props(s, i + 1, p);
    }
}

/// An offset with the run's characteristic properties is the run's end.
pub proof fn lemma_run_end_is(s: Seq<u8>, i: int, p: spec_fn(u8) -> bool, e: int)
    requires
        0 <= i <= e <= s.len(),
        forall|j: int| i <= j < e ==> p(s[j]),
        e < s.len() ==> !p(s[e]),
    ensures
        run_end(s, i, p) == e,
    decreases e - i,
{
    if i < e {
        lemma_run_end_is(s, i + 1, p, e);
    }
}

/// What `first_introducer_from` returns: either the leftmost introducer at or
/// after `i`, or a guarantee that there is none.
pub proof fn lemma_first_introducer_from_props(s: Seq<u8>, i: int)
    requires
        0 <= i,
    ensures
        match first_introducer_from(s, i) {
            Some(k) => i <= k && introducer_at(s, k) && (forall|j: int|
                i <= j < k ==> !introducer_at(s, j)),
            None => forall|j: int| i <= j ==> !introducer_at(s, j),
        },
    decreases s.len() - i,
{
    if i + 1 >= s.len() {
    } else if s[i] == ESC && s[i + 1] == BRACKET {
    } else {
        lemma_first_introducer_from_props(s, i + 1);
    }
}

/// An introducer with none to its left is what `first_introducer_from` finds.
pub proof fn lemma_first_introducer_from_is(s: Seq<u8>, i: int, k: int)
    requires
        0 <= i <= k,
        introducer_at(s, k),
        forall|j: int| i <= j < k ==> !introducer_at(s, j),
    ensures
        first_introducer_from(s, i) == Some(k),
    decreases k - i,
{
    if i < k {
        assert(!introducer_at(s, i));
        lemma_first_introducer_from_is(s, i + 1, k);
    }
}

/// The one candidate final-byte offset lies after the introducer and within
/// the buffer bounds.
pub proof fn lemma_sequence_end_bounds(s: Seq<u8>, i: int)
    requires
        0 <= i,
        i + 2 <= s.len(),
    ensures
        i + 2 <= sequence_end(s, i) <= s.len(),
{
    lemma_run_end_props(s, i + 2, parameter_pred());
    lemma_run_end_props(s, run_end(s, i + 2, parameter_pred()), intermediate_pred());
}

/// The stripped form of `s`: the plain text before the first well-formed CSI
/// sequence is kept, the sequence itself is dropped, and the rest is stripped
/// in turn; once no sequence is found -- or the leftmost introducer is
/// malformed -- the remaining buffer is kept verbatim.
pub open spec fn strip_spec(s: Seq<u8>) -> Seq<u8>
    decreases s.len(),
    via strip_spec_decreases
{
    match first_introducer(s) {
        None => s,
        Some(i) => {
            let e = sequence_end(s, i);
            if e < s.len() && csi_final(s[e]) {
                s.subrange(0, i) + strip_spec(s.subrange(e + 1, s.len() as int))
            } else {
                s
            }
        },
    }
}

#[via_fn]
proof fn strip_spec_decreases(s: Seq<u8>) {
    lemma_first_introducer_from_props(s, 0);
    match first_introducer(s) {
        Some(i) => {
            lemma_sequence_end_bounds(s, i);
        },
        None => {},
    }
}

/// A buffer in which the scan finds no well-formed sequence is left as it is.
pub proof fn lemma_strip_spec_stalled(s: Seq<u8>)
    requires
        !scan_found(s),
    ensures
        strip_spec(s) == s,
{
}

/// Stripping cannot bisect a multi-byte character: a CSI sequence starts at
/// the single-byte `ESC` and ends at a single-byte final byte, so removing it
/// keeps the buffer a valid UTF-8 encoding.
pub proof fn lemma_strip_valid_utf8(s: Seq<u8>)
    requires
        valid_utf8(s),
    ensures
        valid_utf8(strip_spec(s)),
    decreases s.len(),
{
    lemma_first_introducer_from_props(s, 0);
    match first_introducer(s) {
        None => {},
        Some(i) => {
            let e = sequence_end(s, i);
            if e < s.len() && csi_final(s[e]) {
                lemma_sequence_end_bounds(s, i);
                is_char_boundary_iff_not_is_continuation_byte(s, i);
                valid_utf8_split(s, i);
                is_char_boundary_iff_not_is_continuation_byte(s, e);
                valid_utf8_split(s, e);
                let u = s.subrange(e, s.len() as int);
                assert(valid_utf8(u));
                assert(is_leading_byte_width_1(u[0]));
                assert(length_of_first_scalar(u) == 1);
                let t = s.subrange(e + 1, s.len() as int);
                assert(pop_first_scalar(u) =~= t);
                assert(valid_utf8(t));
                lemma_strip_valid_utf8(t);
                valid_utf8_concat(s.subrange(0, i), strip_spec(t));
            }
        },
    }
}

} // verus!
