//! Splitting one input record into key and value token.
//!
//! A record is `key;value`: everything before the first semicolon is the key,
//! and the rest, trimmed of ASCII whitespace at both ends, is the value token
//! handed to the parser. A record without a semicolon, or whose token the
//! parser rejects, aborts the run; the table is left untouched.

use vstd::prelude::*;
use crate::aggregate::{spec_update, WeatherMap, MAX_COUNT};
use crate::parse::{parse_temperature, spec_parse_temperature};

verus! {

/// ASCII `;`.
pub const SEMICOLON: u8 = 59;

/// ASCII whitespace trimmed around the value token.
pub open spec fn is_ws(b: u8) -> bool {
    b == 32 || b == 9 || b == 13 || b == 10
}

/// Index of the first semicolon, if any.
pub open spec fn spec_find_sep(l: Seq<u8>) -> Option<int>
    decreases l.len(),
{
    if l.len() == 0 {
        None
    } else if l[0] == SEMICOLON {
        Some(0)
    } else {
        match spec_find_sep(l.drop_first()) {
            Some(j) => Some(j + 1),
            None => None,
        }
    }
}

/// `spec_find_sep` returns the least semicolon position, and `None` exactly
/// when the record holds no semicolon.
pub proof fn lemma_find_sep(l: Seq<u8>)
    ensures
        match spec_find_sep(l) {
            Some(i) => 0 <= i < l.len() && l[i] == SEMICOLON && forall|j: int|
                0 <= j < i ==> l[j] != SEMICOLON,
            None => forall|j: int| 0 <= j < l.len() ==> l[j] != SEMICOLON,
        },
    decreases l.len(),
{
    if l.len() > 0 && l[0] != SEMICOLON {
        lemma_find_sep(l.drop_first());
        assert(forall|j: int| 1 <= j < l.len() ==> l[j] == l.drop_first()[j - 1]);
    }
}

/// Drop leading ASCII whitespace.
pub open spec fn trim_front(s: Seq<u8>) -> Seq<u8>
    decreases s.len(),
{
    if s.len() > 0 && is_ws(s[0]) {
        trim_front(s.drop_first())
    } else {
        s
    }
}

/// Drop trailing ASCII whitespace.
pub open spec fn trim_back(s: Seq<u8>) -> Seq<u8>
    decreases s.len(),
{
    if s.len() > 0 && is_ws(s.last()) {
        trim_back(s.drop_last())
    } else {
        s
    }
}

/// Drop ASCII whitespace at both ends.
pub open spec fn spec_trim(s: Seq<u8>) -> Seq<u8> {
    trim_back(trim_front(s))
}

proof fn lemma_trim_front_skip(s: Seq<u8>, i: int)
    requires
        0 <= i <= s.len(),
        forall|j: int| 0 <= j < i ==> is_ws(s[j]),
    ensures
        trim_front(s) == trim_front(s.skip(i)),
    decreases i,
{
    if i == 0 {
        assert(s.skip(0) =~= s);
    } else {
        lemma_trim_front_skip(s.drop_first(), i - 1);
        assert(s.drop_first().skip(i - 1) =~= s.skip(i));
    }
}

proof fn lemma_trim_back_take(s: Seq<u8>, i: int)
    requires
        0 <= i <= s.len(),
        forall|j: int| i <= j < s.len() ==> is_ws(s[j]),
    ensures
        trim_back(s) == trim_back(s.take(i)),
    decreases s.len() - i,
{
    if i == s.len() {
        assert(s.take(i) =~= s);
    } else {
        lemma_trim_back_take(s.drop_last(), i);
        assert(s.drop_last().take(i) =~= s.take(i));
    }
}

/// The trimmed token is the subrange between the outermost non-whitespace
/// bytes.
proof fn lemma_trim_exact(s: Seq<u8>, lo: int, hi: int)
    requires
        0 <= lo <= hi <= s.len(),
        forall|j: int| 0 <= j < lo ==> is_ws(s[j]),
        forall|j: int| hi <= j < s.len() ==> is_ws(s[j]),
        lo < hi ==> !is_ws(s[lo]) && !is_ws(s[hi - 1]),
    ensures
        spec_trim(s) == s.subrange(lo, hi),
{
    let t = s.skip(lo);
    if lo == hi {
        lemma_trim_front_skip(s, s.len() as int);
        assert(s.skip(s.len() as int) =~= Seq::<u8>::empty());
        assert(spec_trim(s) =~= s.subrange(lo, hi));
    } else {
        lemma_trim_front_skip(s, lo);
        assert(!is_ws(t[0]));
        lemma_trim_back_take(t, hi - lo);
        assert(t.take(hi - lo) =~= s.subrange(lo, hi));
        assert(!is_ws(t.take(hi - lo).last()));
    }
}

/// Key and trimmed value token of a record, split at the first semicolon.
pub open spec fn spec_split_line(l: Seq<u8>) -> Option<(Seq<u8>, Seq<u8>)> {
    match spec_find_sep(l) {
        Some(i) => Some((l.take(i), spec_trim(l.skip(i + 1)))),
        None => None,
    }
}

/// Why one record could not be folded into the table.
#[derive(Clone, Copy, PartialEq, Eq, Structural, Debug)]
pub enum LineError {
    /// The record holds no semicolon.
    MissingSeparator,
    /// The value token is not a temperature the parser accepts.
    InvalidValue,
}

/// Index of the first semicolon of `line`, if any.
fn find_sep(line: &[u8]) -> (r: Option<usize>)
    ensures
        match r {
            Some(i) => spec_find_sep(line@) == Some(i as int),
            None => spec_find_sep(line@) is None,
        },
{
    let n = line.len();
    let mut i: usize = 0;
    while i < n
        invariant
            0 <= i <= n,
            n == line@.len(),
            forall|j: int| 0 <= j < i ==> line@[j] != SEMICOLON,
        decreases n - i,
    {
        if line[i] == SEMICOLON {
            proof {
                lemma_find_sep(line@);
            }
            return Some(i);
        }
        i = i + 1;
    }
    proof {
        lemma_find_sep(line@);
    }
    None
}

/// Split one record, parse its value token, and fold the observation into
/// the table. On a malformed record the table is left unchanged and the
/// error says which of the two shapes failed.
pub fn process_line(map: &mut WeatherMap, line: &[u8]) -> (r: Result<(), LineError>)
    requires
        old(map).wf(),
        forall|k: Seq<u8>|
            old(map)@.contains_key(k) ==> #[trigger] old(map)@[k].count < MAX_COUNT,
    ensures
        final(map).wf(),
        match r {
            Ok(()) => spec_split_line(line@) matches Some(kv) && spec_parse_temperature(kv.1)
                matches Some(v) && final(map)@ == spec_update(old(map)@, kv.0, v),
            Err(LineError::MissingSeparator) => spec_split_line(line@) is None && final(map)@
                == old(map)@,
            Err(LineError::InvalidValue) => spec_split_line(line@) matches Some(kv)
                && spec_parse_temperature(kv.1) is None && final(map)@ == old(map)@,
        },
{
    let i_sep = match find_sep(line) {
        Some(i) => i,
        None => {
            return Err(LineError::MissingSeparator);
        },
    };
    proof {
        lemma_find_sep(line@);
    }
    let n = line.len();
    // Trim ASCII whitespace around the value token.
    let mut lo: usize = i_sep + 1;
    while lo < n && (line[lo] == 32 || line[lo] == 9 || line[lo] == 13 || line[lo] == 10)
        invariant
            i_sep + 1 <= lo <= n,
            n == line@.len(),
            forall|j: int| i_sep + 1 <= j < lo ==> is_ws(line@[j]),
        decreases n - lo,
    {
        lo = lo + 1;
    }
    let mut hi: usize = n;
    while hi > lo && (line[hi - 1] == 32 || line[hi - 1] == 9 || line[hi - 1] == 13 || line[hi - 1]
        == 10)
        invariant
            lo <= hi <= n,
            n == line@.len(),
            forall|j: int| hi <= j < n ==> is_ws(line@[j]),
        decreases hi,
    {
        hi = hi - 1;
    }
    let token = vstd::slice::slice_subrange(line, lo, hi);
    proof {
        let rest = line@.skip(i_sep + 1);
        lemma_trim_exact(rest, lo - (i_sep + 1), hi - (i_sep + 1));
        assert(rest.subrange(lo - (i_sep + 1), hi - (i_sep + 1)) =~= line@.subrange(
            lo as int,
            hi as int,
        ));
        assert(token@ == spec_trim(rest));
    }
    let value = match parse_temperature(token) {
        Some(v) => v,
        None => {
            return Err(LineError::InvalidValue);
        },
    };
    let key = vstd::slice::slice_subrange(line, 0, i_sep);
    proof {
        assert(key@ =~= line@.take(i_sep as int));
    }
    map.update(key, value);
    Ok(())
}

} // verus!
