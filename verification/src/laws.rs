//! General laws of the stripper, proved over the byte-level model
//! [`crate::csi::strip_spec`] that the contract of
//! [`crate::ansi::strip_ansi`] is stated with.

use vstd::prelude::*;

use crate::csi::csi_final;
use crate::csi::csi_intermediate;
use crate::csi::csi_parameter;
use crate::csi::first_introducer;
use crate::csi::intermediate_pred;
use crate::csi::introducer_at;
use crate::csi::is_csi_sequence;
use crate::csi::is_csi_sequence_split;
use crate::csi::lemma_first_introducer_from_is;
use crate::csi::lemma_first_introducer_from_props;
use crate::csi::lemma_run_end_is;
use crate::csi::lemma_run_end_props;
use crate::csi::lemma_sequence_end_bounds;
use crate::csi::lemma_strip_spec_stalled;
use crate::csi::no_adjacent_escape;
use crate::csi::no_introducer;
use crate::csi::parameter_pred;
use crate::csi::run_end;
use crate::csi::scan_found;
use crate::csi::scan_malformed;
use crate::csi::sequence_end;
use crate::csi::strip_spec;
use crate::csi::ESC;

verus! {

/// A run computed in the suffix of a concatenation is the suffix's own run,
/// shifted by the prefix's length.
proof fn lemma_run_end_offset(a: Seq<u8>, b: Seq<u8>, m: int, p: spec_fn(u8) -> bool)
    requires
        0 <= m <= b.len(),
    ensures
        run_end(a + b, a.len() + m, p) == a.len() + run_end(b, m, p),
{
    lemma_run_end_props(b, m, p);
    let e = run_end(b, m, p);
    assert forall|j: int| a.len() + m <= j < a.len() + e implies p((a + b)[j]) by {
        assert((a + b)[j] == b[j - a.len()]);
    }
    if e < b.len() {
        assert((a + b)[a.len() + e] == b[e]);
    }
    lemma_run_end_is(a + b, a.len() + m, p, a.len() + e);
}

/// When the prefix of a concatenation holds no introducer, not even across
/// the seam, the first introducer of the whole is the suffix's, shifted.
proof fn lemma_first_introducer_offset(a: Seq<u8>, b: Seq<u8>)
    requires
        forall|j: int| 0 <= j < a.len() ==> !introducer_at(a + b, j),
    ensures
        first_introducer(a + b) == match first_introducer(b) {
            None => None::<int>,
            Some(k) => Some(a.len() + k),
        },
{
    lemma_first_introducer_from_props(b, 0);
    match first_introducer(b) {
        None => {
            lemma_first_introducer_from_props(a + b, 0);
            if let Some(k) = first_introducer(a + b) {
                assert((a + b)[k] == b[k - a.len()]);
                assert((a + b)[k + 1] == b[k + 1 - a.len()]);
                assert(introducer_at(b, k - a.len()));
            }
        },
        Some(k) => {
            assert(introducer_at(a + b, a.len() + k)) by {
                assert((a + b)[a.len() + k] == b[k]);
                assert((a + b)[a.len() + k + 1] == b[k + 1]);
            }
            assert forall|j: int| 0 <= j < a.len() + k implies !introducer_at(a + b, j) by {
                if a.len() <= j && introducer_at(a + b, j) {
                    assert((a + b)[j] == b[j - a.len()]);
                    assert((a + b)[j + 1] == b[j + 1 - a.len()]);
                    assert(introducer_at(b, j - a.len()));
                }
            }
            lemma_first_introducer_from_is(a + b, 0, a.len() + k);
        },
    }
}

/// When the prefix of a concatenation holds no introducer, not even across
/// the seam, the scan of the whole is the scan of the suffix, shifted.
proof fn lemma_scan_offset(a: Seq<u8>, b: Seq<u8>)
    requires
        forall|j: int| 0 <= j < a.len() ==> !introducer_at(a + b, j),
    ensures
        scan_found(a + b) == scan_found(b),
        match first_introducer(b) {
            None => first_introducer(a + b) is None,
            Some(k) => first_introducer(a + b) == Some(a.len() + k) && sequence_end(
                a + b,
                a.len() + k,
            ) == a.len() + sequence_end(b, k),
        },
{
    lemma_first_introducer_offset(a, b);
    lemma_first_introducer_from_props(b, 0);
    match first_introducer(b) {
        None => {},
        Some(k) => {
            let pe = run_end(b, k + 2, parameter_pred());
            lemma_run_end_props(b, k + 2, parameter_pred());
            lemma_run_end_offset(a, b, k + 2, parameter_pred());
            lemma_run_end_offset(a, b, pe, intermediate_pred());
            lemma_run_end_props(b, pe, intermediate_pred());
            let e = sequence_end(b, k);
            if e < b.len() {
                assert((a + b)[a.len() + e] == b[e]);
            }
        },
    }
}

/// **No-op on plain text.** A buffer that holds no introducer pair is
/// returned unchanged.
pub proof fn lemma_strip_plain(s: Seq<u8>)
    requires
        no_introducer(s),
    ensures
        strip_spec(s) == s,
{
    lemma_first_introducer_from_props(s, 0);
    if let Some(k) = first_introducer(s) {
        assert(!introducer_at(s, k));
    }
}

/// **Malformed preservation.** A buffer whose leftmost introducer is not
/// completed by a final byte before the buffer ends is returned unchanged,
/// exactly.
pub proof fn lemma_strip_malformed(s: Seq<u8>)
    requires
        scan_malformed(s),
    ensures
        strip_spec(s) == s,
{
    lemma_strip_spec_stalled(s);
}

/// **Length non-increase.** Stripping never makes a buffer longer.
pub proof fn lemma_strip_length(s: Seq<u8>)
    ensures
        strip_spec(s).len() <= s.len(),
    decreases s.len(),
{
    lemma_first_introducer_from_props(s, 0);
    match first_introducer(s) {
        None => {},
        Some(i) => {
            let e = sequence_end(s, i);
            if e < s.len() && csi_final(s[e]) {
                lemma_sequence_end_bounds(s, i);
                lemma_strip_length(s.subrange(e + 1, s.len() as int));
            }
        },
    }
}

/// The scan of `a + c + t` finds exactly `c` when `a` holds no introducer
/// and `c` is one well-formed sequence, so the stripped whole is `a`
/// followed by the stripped tail.
pub proof fn lemma_strip_at_sequence(a: Seq<u8>, c: Seq<u8>, t: Seq<u8>)
    requires
        no_introducer(a),
        is_csi_sequence(c),
    ensures
        strip_spec(a + c + t) == a + strip_spec(t),
{
    let s = a + c + t;
    let i = a.len() as int;
    let p = choose|p: int| is_csi_sequence_split(c, p);
    assert forall|j: int| 0 <= j < i implies !introducer_at(s, j) by {
        if j < i - 1 {
            assert(s[j] == a[j]);
            assert(s[j + 1] == a[j + 1]);
            assert(!introducer_at(a, j));
        } else {
            assert(s[j + 1] == c[0]);
        }
    }
    assert(introducer_at(s, i)) by {
        assert(s[i] == c[0]);
        assert(s[i + 1] == c[1]);
    }
    lemma_first_introducer_from_is(s, 0, i);
    assert forall|j: int| i + 2 <= j < i + p implies parameter_pred()((s)[j]) by {
        assert(s[j] == c[j - i]);
    }
    assert(s[i + p] == c[p]);
    lemma_run_end_is(s, i + 2, parameter_pred(), i + p);
    assert forall|j: int| i + p <= j < i + c.len() - 1 implies intermediate_pred()((s)[j]) by {
        assert(s[j] == c[j - i]);
    }
    assert(s[i + c.len() - 1] == c[c.len() - 1]);
    lemma_run_end_is(s, i + p, intermediate_pred(), i + c.len() - 1);
    let e = sequence_end(s, i);
    assert(e == i + c.len() - 1);
    assert(csi_final(s[e]));
    assert(strip_spec(s) == s.subrange(0, i) + strip_spec(s.subrange(e + 1, s.len() as int)));
    assert(s.subrange(0, i) =~= a);
    assert(s.subrange(e + 1, s.len() as int) =~= t);
}

/// What the scan reports as found is one whole well-formed sequence: the
/// span from the leftmost introducer to the final byte, both included,
/// matches the declarative grammar.
pub proof fn lemma_found_is_sequence(s: Seq<u8>, i: int)
    requires
        scan_found(s),
        first_introducer(s) == Some(i),
    ensures
        is_csi_sequence(s.subrange(i, sequence_end(s, i) + 1)),
{
    lemma_first_introducer_from_props(s, 0);
    lemma_sequence_end_bounds(s, i);
    let pe = run_end(s, i + 2, parameter_pred());
    lemma_run_end_props(s, i + 2, parameter_pred());
    lemma_run_end_props(s, pe, intermediate_pred());
    let e = sequence_end(s, i);
    let c = s.subrange(i, e + 1);
    assert(is_csi_sequence_split(c, pe - i)) by {
        assert forall|j: int| 2 <= j < pe - i implies csi_parameter(c[j]) by {
            assert(c[j] == s[i + j]);
        }
        assert forall|j: int| pe - i <= j < c.len() - 1 implies csi_intermediate(c[j]) by {
            assert(c[j] == s[i + j]);
        }
        assert(c[c.len() - 1] == s[e]);
    }
}

/// **Leftmost match.** Two well-formed sequences standing in otherwise plain
/// text are both removed, and the text before, between and after them is
/// kept verbatim and in order.
pub proof fn lemma_strip_two_sequences(
    a: Seq<u8>,
    c1: Seq<u8>,
    b: Seq<u8>,
    c2: Seq<u8>,
    d: Seq<u8>,
)
    requires
        no_introducer(a),
        no_introducer(b),
        no_introducer(d),
        is_csi_sequence(c1),
        is_csi_sequence(c2),
    ensures
        strip_spec(a + c1 + b + c2 + d) == a + b + d,
{
    let t = b + c2 + d;
    assert(a + c1 + b + c2 + d =~= a + c1 + t);
    lemma_strip_at_sequence(a, c1, t);
    lemma_strip_at_sequence(b, c2, d);
    lemma_strip_plain(d);
    assert(a + (b + d) =~= a + b + d);
}

/// After one pass no well-formed sequence is left, provided the input has no
/// two adjacent `ESC` bytes: removing a sequence can otherwise splice an
/// `ESC` standing just before the removed span onto a `[` standing just
/// after it, forming a new introducer.
pub proof fn lemma_strip_no_new_sequence(s: Seq<u8>)
    requires
        no_adjacent_escape(s),
    ensures
        !scan_found(strip_spec(s)),
    decreases s.len(),
{
    lemma_first_introducer_from_props(s, 0);
    match first_introducer(s) {
        None => {},
        Some(i) => {
            let e = sequence_end(s, i);
            if e < s.len() && csi_final(s[e]) {
                lemma_sequence_end_bounds(s, i);
                let a = s.subrange(0, i);
                let t = s.subrange(e + 1, s.len() as int);
                assert forall|j: int| 0 <= j < t.len() - 1 implies !(#[trigger] t[j] == ESC && t[j
                    + 1] == ESC) by {
                    assert(t[j] == s[e + 1 + j]);
                    assert(t[j + 1] == s[e + 1 + j + 1]);
                }
                lemma_strip_no_new_sequence(t);
                let rest = strip_spec(t);
                assert forall|j: int| 0 <= j < a.len() implies !introducer_at(a + rest, j) by {
                    if j + 1 < i {
                        assert((a + rest)[j] == s[j]);
                        assert((a + rest)[j + 1] == s[j + 1]);
                        assert(!introducer_at(s, j));
                    } else if j == i - 1 && j + 1 < (a + rest).len() {
                        assert((a + rest)[j] == s[i - 1]);
                        assert(!(s[i - 1] == ESC && s[i] == ESC));
                        assert(s[i] == ESC);
                    }
                }
                lemma_scan_offset(a, rest);
                assert(strip_spec(s) == a + rest);
            }
        },
    }
}

/// **Idempotence.** Stripping a second time changes nothing, for every input
/// with no two adjacent `ESC` bytes.
pub proof fn lemma_strip_idempotent(s: Seq<u8>)
    requires
        no_adjacent_escape(s),
    ensures
        strip_spec(strip_spec(s)) == strip_spec(s),
{
    lemma_strip_no_new_sequence(s);
    lemma_strip_spec_stalled(strip_spec(s));
}

} // verus!

