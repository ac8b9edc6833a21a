//! Rendering the aggregate table.
//!
//! Each record prints as `min/mean/max`, every number with exactly one
//! fractional digit; the mean is the running total divided by the count with
//! truncation toward zero. Entries are joined with `, `, wrapped in braces,
//! and ordered by byte-wise lexicographic comparison of the keys.

use vstd::prelude::*;
use itertools::Itertools;
use crate::aggregate::DataModel;
use crate::aggregate::WeatherData;
use crate::parse::DIGIT_ZERO;
use crate::parse::DOT;
use crate::parse::MINUS;

verus! {

/// ASCII `/`.
pub const SLASH: u8 = 47;

/// ASCII `=`.
pub const EQUALS: u8 = 61;

/// ASCII `{`.
pub const LBRACE: u8 = 123;

/// ASCII `}`.
pub const RBRACE: u8 = 125;

/// ASCII `,`.
pub const COMMA: u8 = 44;

/// ASCII space.
pub const SPACE: u8 = 32;

/// Byte-wise lexicographic order on byte strings: a proper prefix comes
/// first, otherwise the first differing byte decides.
pub open spec fn lex_le(a: Seq<u8>, b: Seq<u8>) -> bool
    decreases a.len(),
{
    if a.len() == 0 {
        true
    } else if b.len() == 0 {
        false
    } else if a[0] < b[0] {
        true
    } else if a[0] > b[0] {
        false
    } else {
        lex_le(a.drop_first(), b.drop_first())
    }
}

/// Every byte string is ordered with itself.
pub proof fn lemma_lex_refl(a: Seq<u8>)
    ensures
        lex_le(a, a),
    decreases a.len(),
{
    if a.len() > 0 {
        lemma_lex_refl(a.drop_first());
    }
}

/// Byte strings ordered both ways are equal.
pub proof fn lemma_lex_antisym(a: Seq<u8>, b: Seq<u8>)
    requires
        lex_le(a, b),
        lex_le(b, a),
    ensures
        a == b,
    decreases a.len(),
{
    if a.len() == 0 {
        assert(a =~= b);
    } else {
        assert(a[0] == b[0]);
        lemma_lex_antisym(a.drop_first(), b.drop_first());
        assert forall|i: int| 0 <= i < a.len() implies a[i] == b[i] by {
            if i > 0 {
                assert(a[i] == a.drop_first()[i - 1]);
                assert(b[i] == b.drop_first()[i - 1]);
            }
        }
        assert(a =~= b);
    }
}

/// The keys appear in ascending lexicographic order.
pub open spec fn sorted_keys(ks: Seq<Seq<u8>>) -> bool {
    forall|i: int, j: int| 0 <= i < j < ks.len() ==> lex_le(ks[i], ks[j])
}

/// A sorted enumeration without repeats is determined by the set it covers.
pub proof fn lemma_sorted_keys_unique(a: Seq<Seq<u8>>, b: Seq<Seq<u8>>)
    requires
        sorted_keys(a),
        a.no_duplicates(),
        sorted_keys(b),
        b.no_duplicates(),
        a.to_set() == b.to_set(),
    ensures
        a == b,
    decreases a.len(),
{
    if a.len() == 0 {
        if b.len() > 0 {
            assert(b.to_set().contains(b[0]));
            assert(a.contains(b[0]));
        }
        assert(a =~= b);
    } else {
        assert(a.to_set().contains(a[0]));
        assert(b.contains(a[0]));
        if b.len() == 0 {
            assert(b.to_set().contains(a[0]));
        }
        let j = choose|j: int| 0 <= j < b.len() && b[j] == a[0];
        if j == 0 {
            lemma_lex_refl(b[0]);
        }
        assert(lex_le(b[0], a[0]));
        assert(b.to_set().contains(b[0]));
        assert(a.contains(b[0]));
        let i = choose|i: int| 0 <= i < a.len() && a[i] == b[0];
        if i == 0 {
            lemma_lex_refl(a[0]);
        }
        assert(lex_le(a[0], b[0]));
        lemma_lex_antisym(a[0], b[0]);
        let a2 = a.drop_first();
        let b2 = b.drop_first();
        assert(a2.to_set() =~= a.to_set().remove(a[0])) by {
            assert forall|x: Seq<u8>| a2.contains(x) implies a.contains(x) && x != a[0] by {
                let k = choose|k: int| 0 <= k < a2.len() && a2[k] == x;
                assert(a[k + 1] == x);
            }
            assert forall|x: Seq<u8>| a.contains(x) && x != a[0] implies a2.contains(x) by {
                let k = choose|k: int| 0 <= k < a.len() && a[k] == x;
                assert(a2[k - 1] == x);
            }
        }
        assert(b2.to_set() =~= b.to_set().remove(b[0])) by {
            assert forall|x: Seq<u8>| b2.contains(x) implies b.contains(x) && x != b[0] by {
                let k = choose|k: int| 0 <= k < b2.len() && b2[k] == x;
                assert(b[k + 1] == x);
            }
            assert forall|x: Seq<u8>| b.contains(x) && x != b[0] implies b2.contains(x) by {
                let k = choose|k: int| 0 <= k < b.len() && b[k] == x;
                assert(b2[k - 1] == x);
            }
        }
        assert forall|p: int, q: int| 0 <= p < q < a2.len() implies lex_le(a2[p], a2[q]) by {
            assert(a2[p] == a[p + 1]);
            assert(a2[q] == a[q + 1]);
        }
        assert forall|p: int, q: int| 0 <= p < q < b2.len() implies lex_le(b2[p], b2[q]) by {
            assert(b2[p] == b[p + 1]);
            assert(b2[q] == b[q + 1]);
        }
        lemma_sorted_keys_unique(a2, b2);
        assert forall|k: int| 0 <= k < a.len() implies a[k] == b[k] by {
            if k > 0 {
                assert(a[k] == a2[k - 1]);
                assert(b[k] == b2[k - 1]);
            }
        }
        assert(a =~= b);
    }
}

/// Decimal digits of a natural number, most significant first.
pub open spec fn dec_digits(n: nat) -> Seq<u8>
    decreases n,
{
    if n < 10 {
        seq![(n + DIGIT_ZERO) as u8]
    } else {
        dec_digits(n / 10).push((n % 10 + DIGIT_ZERO) as u8)
    }
}

/// A value scaled by ten printed with one fractional digit: the truncated
/// integer part, `.`, then the last scaled digit. The sign appears only when
/// the integer part is itself nonzero.
pub open spec fn scaled_chars(v: int) -> Seq<u8> {
    let mag = if v < 0 {
        -v
    } else {
        v
    };
    let sign: Seq<u8> = if v <= -10 {
        seq![MINUS]
    } else {
        Seq::empty()
    };
    sign + dec_digits((mag / 10) as nat) + seq![DOT] + seq![(mag % 10 + DIGIT_ZERO) as u8]
}

/// Truncating division, rounding toward zero as hardware integer division
/// does.
pub open spec fn trunc_div(t: int, c: int) -> int
    recommends
        c > 0,
{
    if t >= 0 {
        t / c
    } else {
        -((-t) / c)
    }
}

/// The mean a record renders: its total over its count, truncated.
pub open spec fn spec_mean(d: DataModel) -> int {
    trunc_div(d.total, d.count)
}

/// `min/mean/max` for one record.
pub open spec fn record_chars(d: DataModel) -> Seq<u8> {
    scaled_chars(d.min) + seq![SLASH] + scaled_chars(spec_mean(d)) + seq![SLASH] + scaled_chars(
        d.max,
    )
}

/// `key=min/mean/max` for one entry.
pub open spec fn entry_chars(k: Seq<u8>, d: DataModel) -> Seq<u8> {
    k + seq![EQUALS] + record_chars(d)
}

/// Entries for the given keys in order, joined with `, `.
pub open spec fn render_list(ks: Seq<Seq<u8>>, m: Map<Seq<u8>, DataModel>) -> Seq<u8>
    decreases ks.len(),
{
    if ks.len() == 0 {
        Seq::empty()
    } else if ks.len() == 1 {
        entry_chars(ks[0], m[ks[0]])
    } else {
        render_list(ks.drop_last(), m) + seq![COMMA, SPACE] + entry_chars(
            ks.last(),
            m[ks.last()],
        )
    }
}

/// The table's keys in ascending order; by `lemma_sorted_keys_unique` there
/// is at most one such enumeration.
pub open spec fn key_order(m: Map<Seq<u8>, DataModel>) -> Seq<Seq<u8>> {
    choose|ks: Seq<Seq<u8>>| sorted_keys(ks) && ks.no_duplicates() && ks.to_set() == m.dom()
}

/// The full rendering: entries sorted by key, wrapped in braces.
pub open spec fn render_spec(m: Map<Seq<u8>, DataModel>) -> Seq<u8> {
    seq![LBRACE] + render_list(key_order(m), m) + seq![RBRACE]
}

/// Append a copy of `s`.
pub fn push_bytes(out: &mut Vec<u8>, s: &[u8])
    ensures
        final(out)@ == old(out)@ + s@,
{
    let n = s.len();
    let mut i: usize = 0;
    while i < n
        invariant
            0 <= i <= n,
            n == s@.len(),
            out@ == old(out)@ + s@.take(i as int),
        decreases n - i,
    {
        out.push(s[i]);
        proof {
            assert(old(out)@ + s@.take(i as int) + seq![s@[i as int]] =~= old(out)@ + s@.take(
                i + 1,
            ));
        }
        i = i + 1;
    }
    proof {
        assert(s@.take(n as int) =~= s@);
    }
}

/// Append the decimal digits of `n`.
pub fn push_dec(out: &mut Vec<u8>, n: u64)
    ensures
        final(out)@ == old(out)@ + dec_digits(n as nat),
    decreases n,
{
    if n < 10 {
        out.push((n as u8) + DIGIT_ZERO);
        proof {
            assert(final(out)@ =~= old(out)@ + dec_digits(n as nat));
        }
    } else {
        push_dec(out, n / 10);
        out.push(((n % 10) as u8) + DIGIT_ZERO);
        proof {
            assert(final(out)@ =~= old(out)@ + dec_digits(n as nat));
        }
    }
}

/// Append a scaled value as `int.frac` with one fractional digit.
pub fn push_scaled(out: &mut Vec<u8>, v: i64)
    requires
        i64::MIN < v,
    ensures
        final(out)@ == old(out)@ + scaled_chars(v as int),
{
    let neg = v < 0;
    let mag: u64 = if neg {
        (-v) as u64
    } else {
        v as u64
    };
    if neg && mag >= 10 {
        out.push(MINUS);
    }
    push_dec(out, mag / 10);
    out.push(DOT);
    out.push(((mag % 10) as u8) + DIGIT_ZERO);
    proof {
        assert(final(out)@ =~= old(out)@ + scaled_chars(v as int));
    }
}

impl WeatherData {
    /// Append this record as `min/mean/max`.
    pub fn render_into(&self, out: &mut Vec<u8>)
        requires
            self.wf(),
        ensures
            final(out)@ == old(out)@ + record_chars(self@),
    {
        proof {
            let t = self.total as int;
            let c = self.count as int;
            let mn = self.min as int;
            let mx = self.max as int;
            assert(-0x1000_0000_0000_0000 <= t <= 0x1000_0000_0000_0000) by (nonlinear_arith)
                requires
                    mn * c <= t <= mx * c,
                    -0x8000 <= mn <= mx <= 0x7fff,
                    1 <= c <= 0x1000_0000_0000,
            ;
        }
        push_scaled(out, self.min as i64);
        out.push(SLASH);
        let neg = self.total < 0;
        let mag: u64 = if neg {
            (-self.total) as u64
        } else {
            self.total as u64
        };
        let q: u64 = mag / self.count;
        let mean: i64 = if neg {
            -(q as i64)
        } else {
            q as i64
        };
        proof {
            assert(mean as int == spec_mean(self@));
        }
        push_scaled(out, mean);
        out.push(SLASH);
        push_scaled(out, self.max as i64);
        proof {
            assert(final(out)@ =~= old(out)@ + record_chars(self@));
        }
    }
}

/// The byte strings a list of owned keys holds.
pub open spec fn views_of(s: Seq<Vec<u8>>) -> Seq<Seq<u8>> {
    s.map_values(|k: Vec<u8>| k@)
}

/// Relies on `itertools::Itertools::sorted`, which collects into a `Vec` and
/// sorts it ascending by `Ord`; `Ord` on `Vec<u8>` is byte-wise lexicographic
/// order, so the result is a lexicographically sorted rearrangement.
#[verifier::external_body]
pub(crate) fn sort_keys(keys: Vec<Vec<u8>>) -> (r: Vec<Vec<u8>>)
    ensures
        views_of(r@).to_multiset() == views_of(keys@).to_multiset(),
        sorted_keys(views_of(r@)),
{
    keys.into_iter().sorted().collect()
}

} // verus!
