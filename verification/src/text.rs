//! Small verified helpers on byte strings: comparison, whitespace, and
//! decimal formatting of process IDs.

use vstd::prelude::*;

verus! {

/// The byte `/`, the hierarchy root marker and path separator.
pub const SLASH: u8 = 47;

/// The byte `.`, as a lone path fragment and as the key separator in
/// restriction keys.
pub const DOT: u8 = 46;

/// The byte `+`, the prefix that enables a controller.
pub const PLUS: u8 = 43;

/// The byte `=`, the separator of a `key=value` restriction argument.
pub const EQUALS: u8 = 61;

/// The byte `-`, the prefix of command-line flags.
pub const DASH: u8 = 45;

/// The byte `0`, the first decimal digit and the hierarchy number in the
/// unified per-process group assignment.
pub const ZERO: u8 = 48;

/// The byte `:`, the field separator in the per-process group assignment.
pub const COLON: u8 = 58;

/// The line feed byte.
pub const LF: u8 = 10;

/// The carriage return byte.
pub const CR: u8 = 13;

/// The views of a sequence of byte vectors, element by element.
pub open spec fn names(s: Seq<Vec<u8>>) -> Seq<Seq<u8>> {
    s.map_values(|v: Vec<u8>| v@)
}

/// Compares two byte strings for equality.
pub fn bytes_eq(a: &[u8], b: &[u8]) -> (r: bool)
    ensures
        r == (a@ == b@),
{
    if a.len() != b.len() {
        proof {
            assert(a@ != b@) by {
                assert(a@.len() != b@.len());
            }
        }
        return false;
    }
    let mut i: usize = 0;
    while i < a.len()
        invariant
            i <= a.len(),
            a@.len() == b@.len(),
            forall|j: int| 0 <= j < i ==> a@[j] == b@[j],
        decreases a.len() - i,
    {
        if a[i] != b[i] {
            return false;
        }
        i += 1;
    }
    proof {
        assert(a@ =~= b@);
    }
    true
}

/// Holds for the whitespace bytes: space, tab, line feed, vertical tab,
/// form feed, carriage return.
pub open spec fn is_space(b: u8) -> bool {
    b == 32 || b == 9 || b == 10 || b == 11 || b == 12 || b == 13
}

/// Says whether `b` is a whitespace byte.
pub fn space(b: u8) -> (r: bool)
    ensures
        r == is_space(b),
{
    b == 32 || b == 9 || b == 10 || b == 11 || b == 12 || b == 13
}

/// `s` without its leading separator bytes.
pub open spec fn trim_front(s: Seq<u8>) -> Seq<u8>
    decreases s.len(),
{
    if s.len() > 0 && is_space(s[0]) {
        trim_front(s.drop_first())
    } else {
        s
    }
}

/// `s` without its trailing separator bytes.
pub open spec fn trim_back(s: Seq<u8>) -> Seq<u8>
    decreases s.len(),
{
    if s.len() > 0 && is_space(s.last()) {
        trim_back(s.drop_last())
    } else {
        s
    }
}

/// `s` without leading and trailing separator bytes.
pub open spec fn trim(s: Seq<u8>) -> Seq<u8> {
    trim_back(trim_front(s))
}

/// Dropping a separator prefix is what `trim_front` does.
proof fn lemma_trim_front_skip(s: Seq<u8>, lo: int)
    requires
        0 <= lo <= s.len(),
        forall|k: int| 0 <= k < lo ==> is_space(s[k]),
        lo == s.len() || !is_space(s[lo]),
    ensures
        trim_front(s) == s.skip(lo),
    decreases lo,
{
    if lo == 0 {
        assert(s.skip(0) =~= s);
    } else {
        assert(is_space(s[0]));
        let d = s.drop_first();
        assert forall|k: int| 0 <= k < lo - 1 implies is_space(d[k]) by {
            assert(d[k] == s[k + 1]);
        }
        lemma_trim_front_skip(d, lo - 1);
        assert(d.skip(lo - 1) =~= s.skip(lo));
    }
}

/// Dropping a separator suffix is what `trim_back` does.
proof fn lemma_trim_back_take(s: Seq<u8>, hi: int)
    requires
        0 <= hi <= s.len(),
        forall|k: int| hi <= k < s.len() ==> is_space(s[k]),
        hi == 0 || !is_space(s[hi - 1]),
    ensures
        trim_back(s) == s.take(hi),
    decreases s.len() - hi,
{
    if hi == s.len() {
        assert(s.take(hi) =~= s);
    } else {
        assert(is_space(s.last()));
        let d = s.drop_last();
        lemma_trim_back_take(d, hi);
        assert(d.take(hi) =~= s.take(hi));
    }
}

/// Trims leading and trailing separator bytes.
pub fn trim_bytes(s: &[u8]) -> (r: Vec<u8>)
    ensures
        r@ == trim(s@),
{
    let mut lo: usize = 0;
    while lo < s.len() && space(s[lo])
        invariant
            lo <= s@.len(),
            forall|k: int| 0 <= k < lo ==> is_space(s@[k]),
        decreases s@.len() - lo,
    {
        lo += 1;
    }
    let mut hi: usize = s.len();
    while hi > lo && space(s[hi - 1])
        invariant
            lo <= hi <= s@.len(),
            forall|k: int| hi <= k < s@.len() ==> is_space(s@[k]),
        decreases hi,
    {
        hi -= 1;
    }
    proof {
        lemma_trim_front_skip(s@, lo as int);
        let t = s@.skip(lo as int);
        assert forall|k: int| hi - lo <= k < t.len() implies is_space(t[k]) by {
            assert(t[k] == s@[k + lo]);
        }
        if hi > lo {
            assert(t[hi - lo - 1] == s@[hi - 1]);
        }
        lemma_trim_back_take(t, hi - lo);
        assert(t.take(hi - lo) =~= s@.subrange(lo as int, hi as int));
    }
    let mut r: Vec<u8> = Vec::new();
    let mut i: usize = lo;
    while i < hi
        invariant
            lo <= i <= hi <= s@.len(),
            r@ == s@.subrange(lo as int, i as int),
        decreases hi - i,
    {
        let b = s[i];
        r.push(b);
        proof {
            assert(r@ =~= s@.subrange(lo as int, i + 1));
        }
        i += 1;
    }
    r
}

/// The length of the separator-free prefix of `s`.
pub open spec fn word_end(s: Seq<u8>) -> int
    decreases s.len(),
{
    if s.len() == 0 || is_space(s[0]) {
        0
    } else {
        1 + word_end(s.drop_first())
    }
}

/// Bounds and characterization of `word_end`.
proof fn lemma_word_end_bounds(s: Seq<u8>)
    ensures
        0 <= word_end(s) <= s.len(),
        forall|k: int| 0 <= k < word_end(s) ==> !is_space(s[k]),
        word_end(s) < s.len() ==> is_space(s[word_end(s)]),
    decreases s.len(),
{
    if s.len() == 0 || is_space(s[0]) {
    } else {
        let d = s.drop_first();
        lemma_word_end_bounds(d);
        assert forall|k: int| 0 <= k < word_end(s) implies !is_space(s[k]) by {
            if k > 0 {
                assert(d[k - 1] == s[k]);
            }
        }
        if word_end(s) < s.len() {
            assert(d[word_end(d)] == s[word_end(s)]);
        }
    }
}

/// A scan that stops at the first separator finds `word_end`.
proof fn lemma_word_end_at(s: Seq<u8>, k: int)
    requires
        0 <= k <= s.len(),
        forall|m: int| 0 <= m < k ==> !is_space(s[m]),
        k == s.len() || is_space(s[k]),
    ensures
        word_end(s) == k,
    decreases k,
{
    if k == 0 {
    } else {
        let d = s.drop_first();
        assert forall|m: int| 0 <= m < k - 1 implies !is_space(d[m]) by {
            assert(d[m] == s[m + 1]);
        }
        if k < s.len() {
            assert(d[k - 1] == s[k]);
        }
        lemma_word_end_at(d, k - 1);
    }
}

/// The separator-delimited words of `s`, in order, separators dropped.
pub open spec fn split_ws(s: Seq<u8>) -> Seq<Seq<u8>>
    decreases s.len(),
    via split_ws_decreases
{
    if s.len() == 0 {
        Seq::empty()
    } else if is_space(s[0]) {
        split_ws(s.drop_first())
    } else {
        seq![s.take(word_end(s))] + split_ws(s.skip(word_end(s)))
    }
}

#[via_fn]
proof fn split_ws_decreases(s: Seq<u8>) {
    if s.len() > 0 && !is_space(s[0]) {
        lemma_word_end_bounds(s);
    }
}

/// Splits `s` on separator bytes, dropping empty pieces.
pub fn split_whitespace(s: &[u8]) -> (r: Vec<Vec<u8>>)
    ensures
        names(r@) == split_ws(s@),
{
    let mut r: Vec<Vec<u8>> = Vec::new();
    proof {
        assert(names(r@) =~= Seq::<Seq<u8>>::empty());
        assert(s@.skip(0) =~= s@);
    }
    let mut i: usize = 0;
    while i < s.len()
        invariant
            i <= s@.len(),
            split_ws(s@) == names(r@) + split_ws(s@.skip(i as int)),
        decreases s@.len() - i,
    {
        if space(s[i]) {
            proof {
                assert(s@.skip(i as int).drop_first() =~= s@.skip(i + 1));
            }
            i += 1;
        } else {
            let start = i;
            let mut word: Vec<u8> = Vec::new();
            while i < s.len() && !space(s[i])
                invariant
                    start <= i <= s@.len(),
                    word@ == s@.subrange(start as int, i as int),
                    forall|k: int| start <= k < i ==> !is_space(s@[k]),
                decreases s@.len() - i,
            {
                let b = s[i];
                word.push(b);
                proof {
                    assert(word@ =~= s@.subrange(start as int, i + 1));
                }
                i += 1;
            }
            let ghost rest = s@.skip(start as int);
            proof {
                assert forall|m: int| 0 <= m < i - start implies !is_space(rest[m]) by {
                    assert(rest[m] == s@[m + start]);
                }
                if i < s@.len() {
                    assert(rest[i - start] == s@[i as int]);
                }
                lemma_word_end_at(rest, i - start);
                assert(rest.take(i - start) =~= s@.subrange(start as int, i as int));
                assert(rest.skip(i - start) =~= s@.skip(i as int));
                assert(split_ws(rest) == seq![word@] + split_ws(s@.skip(i as int)));
            }
            let ghost prev = names(r@);
            r.push(word);
            proof {
                assert(names(r@) =~= prev.push(s@.subrange(start as int, i as int)));
                assert(names(r@) + split_ws(s@.skip(i as int)) =~= prev + split_ws(rest));
            }
        }
    }
    proof {
        assert(split_ws(s@.skip(s@.len() as int)) =~= Seq::<Seq<u8>>::empty());
        assert(names(r@) + Seq::<Seq<u8>>::empty() =~= names(r@));
    }
    r
}

/// Holds when `b` occurs in `s`.
pub open spec fn has_byte(s: Seq<u8>, b: u8) -> bool {
    exists|i: int| 0 <= i < s.len() && s[i] == b
}

/// The index of the first occurrence of `b` in `s`, or the length of `s`
/// when it does not occur.
pub open spec fn index_of_byte(s: Seq<u8>, b: u8) -> int
    decreases s.len(),
{
    if s.len() == 0 || s[0] == b {
        0
    } else {
        1 + index_of_byte(s.drop_first(), b)
    }
}

/// Bounds and characterization of `index_of_byte`.
pub proof fn lemma_index_of_byte(s: Seq<u8>, b: u8)
    ensures
        0 <= index_of_byte(s, b) <= s.len(),
        index_of_byte(s, b) < s.len() ==> s[index_of_byte(s, b)] == b,
        forall|m: int| 0 <= m < index_of_byte(s, b) ==> s[m] != b,
        has_byte(s, b) <==> index_of_byte(s, b) < s.len(),
    decreases s.len(),
{
    if s.len() == 0 || s[0] == b {
    } else {
        let d = s.drop_first();
        lemma_index_of_byte(d, b);
        assert forall|m: int| 0 <= m < index_of_byte(s, b) implies s[m] != b by {
            if m > 0 {
                assert(d[m - 1] == s[m]);
            }
        }
        if index_of_byte(d, b) < d.len() {
            assert(s[index_of_byte(s, b)] == d[index_of_byte(d, b)]);
        }
        if has_byte(s, b) {
            let i = choose|i: int| 0 <= i < s.len() && s[i] == b;
            assert(i > 0);
            assert(d[i - 1] == b);
            assert(has_byte(d, b));
        }
        if has_byte(d, b) {
            let i = choose|i: int| 0 <= i < d.len() && d[i] == b;
            assert(s[i + 1] == b);
            assert(has_byte(s, b));
        }
    }
}

/// A scan that stops at the first occurrence finds `index_of_byte`.
pub proof fn lemma_index_of_byte_at(s: Seq<u8>, b: u8, k: int)
    requires
        0 <= k <= s.len(),
        forall|m: int| 0 <= m < k ==> s[m] != b,
        k == s.len() || s[k] == b,
    ensures
        index_of_byte(s, b) == k,
    decreases k,
{
    if k == 0 {
    } else {
        let d = s.drop_first();
        assert forall|m: int| 0 <= m < k - 1 implies d[m] != b by {
            assert(d[m] == s[m + 1]);
        }
        if k < s.len() {
            assert(d[k - 1] == s[k]);
        }
        lemma_index_of_byte_at(d, b, k - 1);
    }
}

/// Finds the first occurrence of `b` in `s`, or the length of `s` when it
/// does not occur.
pub fn find_byte(s: &[u8], b: u8) -> (r: usize)
    ensures
        r as int == index_of_byte(s@, b),
{
    let mut i: usize = 0;
    while i < s.len() && s[i] != b
        invariant
            i <= s@.len(),
            forall|m: int| 0 <= m < i ==> s@[m] != b,
        decreases s@.len() - i,
    {
        i += 1;
    }
    proof {
        lemma_index_of_byte_at(s@, b, i as int);
    }
    i
}

/// The decimal digits of `n`, most significant first.
pub open spec fn decimal(n: nat) -> Seq<u8>
    decreases n,
{
    if n < 10 {
        seq![(48 + n) as u8]
    } else {
        decimal(n / 10).push((48 + n % 10) as u8)
    }
}

/// Formats a process ID as decimal digits.
pub fn format_u32(n: u32) -> (r: Vec<u8>)
    ensures
        r@ == decimal(n as nat),
    decreases n,
{
    if n < 10 {
        let mut r: Vec<u8> = Vec::new();
        r.push(48 + (n as u8));
        proof {
            assert(r@ =~= decimal(n as nat));
        }
        r
    } else {
        let mut r = format_u32(n / 10);
        r.push(48 + ((n % 10) as u8));
        proof {
            assert((n / 10) as nat == (n as nat) / 10);
            assert((n % 10) as nat == (n as nat) % 10);
            assert(r@ =~= decimal(n as nat));
        }
        r
    }
}

/// Copies a byte slice into a fresh vector.
pub fn slice_to_vec(s: &[u8]) -> (r: Vec<u8>)
    ensures
        r@ == s@,
{
    let mut r: Vec<u8> = Vec::new();
    let mut i: usize = 0;
    while i < s.len()
        invariant
            i <= s@.len(),
            r@ == s@.subrange(0, i as int),
        decreases s@.len() - i,
    {
        let b = s[i];
        r.push(b);
        proof {
            assert(r@ =~= s@.subrange(0, i + 1));
        }
        i += 1;
    }
    proof {
        assert(s@.subrange(0, s@.len() as int) =~= s@);
    }
    r
}

} // verus!
