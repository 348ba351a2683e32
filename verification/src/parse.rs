use vstd::prelude::*;

verus! {

/// ASCII whitespace as found around sysfs values (space, tab, line feed,
/// carriage return).
pub open spec fn is_space(b: u8) -> bool {
    b == 32 || b == 9 || b == 10 || b == 13
}

/// ASCII decimal digit.
pub open spec fn is_digit(b: u8) -> bool {
    48 <= b && b <= 57
}

pub open spec fn all_digits(s: Seq<u8>) -> bool {
    forall|i: int| 0 <= i < s.len() ==> is_digit(#[trigger] s[i])
}

/// Value of a digit string, most significant digit first.
pub open spec fn digits_val(s: Seq<u8>) -> nat
    decreases s.len(),
{
    if s.len() == 0 {
        0
    } else {
        10 * digits_val(s.drop_last()) + (s.last() - 48) as nat
    }
}

pub open spec fn trim_left(s: Seq<u8>) -> Seq<u8>
    decreases s.len(),
{
    if s.len() == 0 {
        s
    } else if is_space(s[0]) {
        trim_left(s.drop_first())
    } else {
        s
    }
}

pub open spec fn trim_right(s: Seq<u8>) -> Seq<u8>
    decreases s.len(),
{
    if s.len() == 0 {
        s
    } else if is_space(s.last()) {
        trim_right(s.drop_last())
    } else {
        s
    }
}

/// The byte string with its surrounding ASCII whitespace removed.
pub open spec fn trimmed(s: Seq<u8>) -> Seq<u8> {
    trim_right(trim_left(s))
}

/// A well-formed `<start>-<end>` text split at dash position `k`: exactly one
/// dash, a digit string on each side, start at most end, and a core count
/// that fits in a machine word.
pub open spec fn range_split_at(t: Seq<u8>, k: int) -> bool {
    &&& 0 <= k < t.len()
    &&& t[k] == 45
    &&& forall|i: int| 0 <= i < t.len() && i != k ==> t[i] != 45
    &&& k > 0
    &&& k + 1 < t.len()
    &&& all_digits(t.subrange(0, k))
    &&& all_digits(t.subrange(k + 1, t.len() as int))
    &&& digits_val(t.subrange(0, k)) <= u64::MAX
    &&& digits_val(t.subrange(k + 1, t.len() as int)) <= u64::MAX
    &&& digits_val(t.subrange(0, k)) <= digits_val(t.subrange(k + 1, t.len() as int))
    &&& digits_val(t.subrange(k + 1, t.len() as int)) - digits_val(t.subrange(0, k)) + 1
        <= u64::MAX
}

/// The inclusive count `end - start + 1` of the range split at `k`.
pub open spec fn range_count_at(t: Seq<u8>, k: int) -> int {
    digits_val(t.subrange(k + 1, t.len() as int)) - digits_val(t.subrange(0, k)) + 1
}

proof fn lemma_trim_left_at(s: Seq<u8>, lo: int)
    requires
        0 <= lo <= s.len(),
        forall|i: int| 0 <= i < lo ==> is_space(s[i]),
        lo == s.len() || !is_space(s[lo as int]),
    ensures
        trim_left(s) == s.subrange(lo, s.len() as int),
    decreases lo,
{
    if lo == 0 {
        assert(s.subrange(0, s.len() as int) =~= s);
    } else {
        assert(is_space(s[0]));
        assert(s.len() > 0);
        lemma_trim_left_at(s.drop_first(), lo - 1);
        assert(s.drop_first().subrange(lo - 1, s.drop_first().len() as int) =~= s.subrange(
            lo,
            s.len() as int,
        ));
    }
}

proof fn lemma_trim_right_at(s: Seq<u8>, hi: int)
    requires
        0 <= hi <= s.len(),
        forall|i: int| hi <= i < s.len() ==> is_space(s[i]),
        hi == 0 || !is_space(s[hi - 1]),
    ensures
        trim_right(s) == s.subrange(0, hi),
    decreases s.len() - hi,
{
    if hi == s.len() {
        assert(s.subrange(0, s.len() as int) =~= s);
    } else {
        assert(is_space(s.last()));
        lemma_trim_right_at(s.drop_last(), hi);
        assert(s.drop_last().subrange(0, hi) =~= s.subrange(0, hi));
    }
}

/// Appending digits to a digit string never lowers its value.
proof fn lemma_digits_val_prefix_le(s: Seq<u8>, k: int)
    requires
        0 <= k <= s.len(),
    ensures
        digits_val(s.subrange(0, k)) <= digits_val(s),
    decreases s.len(),
{
    if k == s.len() {
        assert(s.subrange(0, k) =~= s);
    } else {
        assert(s.len() > 0);
        lemma_digits_val_prefix_le(s.drop_last(), k);
        assert(s.drop_last().subrange(0, k) =~= s.subrange(0, k));
    }
}

/// The start and one-past-the-end positions of the trimmed part of `text`,
/// equal when the text is all whitespace.
fn trim_bounds(text: &[u8]) -> (r: (usize, usize))
    ensures
        0 <= r.0 <= r.1 <= text@.len(),
        trimmed(text@) == text@.subrange(r.0 as int, r.1 as int),
{
    let n = text.len();
    let mut lo: usize = 0;
    while lo < n && (text[lo] == 32 || text[lo] == 9 || text[lo] == 10 || text[lo] == 13)
        invariant
            n == text@.len(),
            lo <= n,
            forall|i: int| 0 <= i < lo ==> is_space(text@[i]),
        decreases n - lo,
    {
        lo += 1;
    }
    let mut hi: usize = n;
    while hi > lo && (text[hi - 1] == 32 || text[hi - 1] == 9 || text[hi - 1] == 10 || text[hi - 1]
        == 13)
        invariant
            n == text@.len(),
            lo <= hi <= n,
            forall|i: int| 0 <= i < lo ==> is_space(text@[i]),
            forall|i: int| hi <= i < n ==> is_space(text@[i]),
        decreases hi,
    {
        hi -= 1;
    }
    proof {
        lemma_trim_left_at(text@, lo as int);
        let s2 = text@.subrange(lo as int, n as int);
        lemma_trim_right_at(s2, hi - lo);
        assert(s2.subrange(0, hi - lo) =~= text@.subrange(lo as int, hi as int));
        if hi > lo {
            assert(!is_space(s2[hi - lo - 1]));
        }
    }
    (lo, hi)
}

/// Parses the digit string at positions `[lo, hi)` of `text`.  Returns its
/// value exactly when the segment is non-empty, all digits, and the value
/// fits in a `u64`.
fn parse_digits(text: &[u8], lo: usize, hi: usize) -> (r: Option<u64>)
    requires
        lo <= hi <= text@.len(),
    ensures
        ({
            let seg = text@.subrange(lo as int, hi as int);
            match r {
                Some(v) => seg.len() > 0 && all_digits(seg) && v == digits_val(seg),
                None => seg.len() == 0 || !all_digits(seg) || digits_val(seg) > u64::MAX,
            }
        }),
{
    let ghost seg = text@.subrange(lo as int, hi as int);
    if lo == hi {
        return None;
    }
    let mut acc: u64 = 0;
    let mut i: usize = lo;
    while i < hi
        invariant
            lo <= i <= hi <= text@.len(),
            seg == text@.subrange(lo as int, hi as int),
            all_digits(seg.subrange(0, i - lo)),
            acc == digits_val(seg.subrange(0, i - lo)),
        decreases hi - i,
    {
        let b = text[i];
        if !(48 <= b && b <= 57) {
            proof {
                assert(seg[i - lo] == b);
                assert(!all_digits(seg));
            }
            return None;
        }
        let d = b - 48;
        let ghost prev = seg.subrange(0, i - lo);
        let ghost cur = seg.subrange(0, i + 1 - lo);
        proof {
            assert(cur.drop_last() =~= prev);
            assert(cur.last() == b);
            assert(digits_val(cur) == 10 * digits_val(prev) + d);
        }
        let step = match acc.checked_mul(10) {
            Some(x) => x.checked_add(d as u64),
            None => None,
        };
        match step {
            Some(x) => {
                acc = x;
            },
            None => {
                proof {
                    assert(digits_val(cur) > u64::MAX);
                    lemma_digits_val_prefix_le(seg, i + 1 - lo);
                    assert(digits_val(seg) > u64::MAX);
                }
                return None;
            },
        }
        i += 1;
    }
    proof {
        assert(seg.subrange(0, hi - lo) =~= seg);
    }
    Some(acc)
}

/// Parses sysfs text holding a single non-negative decimal integer, such as a
/// package id or a physical core id, ignoring surrounding whitespace.
/// Returns the value exactly when the trimmed text is a non-empty digit
/// string whose value fits in a `u64`; anything else is malformed.
pub fn parse_integer(text: &[u8]) -> (r: Option<u64>)
    ensures
        ({
            let t = trimmed(text@);
            match r {
                Some(v) => t.len() > 0 && all_digits(t) && v == digits_val(t),
                None => t.len() == 0 || !all_digits(t) || digits_val(t) > u64::MAX,
            }
        }),
{
    let (lo, hi) = trim_bounds(text);
    parse_digits(text, lo, hi)
}

/// Parses sysfs online-range text of the shape `<start>-<end>` (surrounding
/// whitespace ignored) and returns the inclusive count `end - start + 1`.
/// Returns the count exactly when the trimmed text splits at a single dash
/// into two digit strings with `start <= end` and everything in `u64` range;
/// anything else is malformed.
pub fn parse_online_count(text: &[u8]) -> (r: Option<u64>)
    ensures
        ({
            let t = trimmed(text@);
            match r {
                Some(v) => exists|k: int| #[trigger] range_split_at(t, k) && v == range_count_at(
                    t,
                    k,
                ),
                None => forall|k: int| !range_split_at(t, k),
            }
        }),
{
    let ghost t = trimmed(text@);
    let (lo, hi) = trim_bounds(text);
    let mut dash: usize = hi;
    let mut ndash: usize = 0;
    let mut i: usize = lo;
    while i < hi
        invariant
            lo <= i <= hi <= text@.len(),
            t == text@.subrange(lo as int, hi as int),
            ndash == 0 ==> dash == hi && (forall|j: int| lo <= j < i ==> text@[j] != 45),
            ndash == 1 ==> lo <= dash < i && text@[dash as int] == 45 && (forall|j: int|
                lo <= j < i && j != dash ==> text@[j] != 45),
            ndash >= 2 ==> exists|j1: int, j2: int|
                lo <= j1 < j2 < i && #[trigger] text@[j1] == 45 && #[trigger] text@[j2] == 45,
        decreases hi - i,
    {
        if text[i] == 45 {
            if ndash == 0 {
                dash = i;
            }
            if ndash < 2 {
                ndash += 1;
            }
        }
        i += 1;
    }
    if ndash != 1 {
        proof {
            assert forall|k: int| !range_split_at(t, k) by {
                if 0 <= k < t.len() && t[k] == 45 {
                    assert(text@[lo + k] == 45);
                    if ndash == 0 {
                        assert(false);
                    } else {
                        let (j1, j2) = choose|j1: int, j2: int|
                            lo <= j1 < j2 < i && #[trigger] text@[j1] == 45 && #[trigger] text@[j2]
                                == 45;
                        assert(t[j1 - lo] == 45);
                        assert(t[j2 - lo] == 45);
                    }
                }
            }
        }
        return None;
    }
    let ghost k = dash as int - lo;
    proof {
        assert(t[k] == 45);
        assert forall|i2: int| 0 <= i2 < t.len() && i2 != k implies t[i2] != 45 by {
            assert(t[i2] == text@[lo + i2]);
        }
    }
    let left = parse_digits(text, lo, dash);
    proof {
        assert(text@.subrange(lo as int, dash as int) =~= t.subrange(0, k));
    }
    let a = match left {
        Some(a) => a,
        None => {
            proof {
                assert forall|k2: int| !range_split_at(t, k2) by {
                    if range_split_at(t, k2) {
                        assert(t[k] == 45);
                        assert(k2 == k);
                    }
                }
            }
            return None;
        },
    };
    let right = parse_digits(text, dash + 1, hi);
    proof {
        assert(text@.subrange(dash + 1, hi as int) =~= t.subrange(k + 1, t.len() as int));
    }
    let b = match right {
        Some(b) => b,
        None => {
            proof {
                assert forall|k2: int| !range_split_at(t, k2) by {
                    if range_split_at(t, k2) {
                        assert(k2 == k);
                    }
                }
            }
            return None;
        },
    };
    if a > b {
        proof {
            assert forall|k2: int| !range_split_at(t, k2) by {
                if range_split_at(t, k2) {
                    assert(k2 == k);
                }
            }
        }
        return None;
    }
    match (b - a).checked_add(1) {
        Some(count) => {
            proof {
                assert(range_split_at(t, k));
            }
            Some(count)
        },
        None => {
            proof {
                assert forall|k2: int| !range_split_at(t, k2) by {
                    if range_split_at(t, k2) {
                        assert(k2 == k);
                    }
                }
            }
            None
        },
    }
}

} // verus!
