use vstd::prelude::*;
use vstd::utf8::{encode_scalar, encode_utf8};

verus! {

/// Whether `c` has the Unicode `White_Space` property, the set of characters
/// that `str::trim` and its relatives remove.
pub open spec fn is_white_space(c: char) -> bool {
    ||| '\t' <= c <= '\r'
    ||| c == ' '
    ||| c == '\u{85}'
    ||| c == '\u{a0}'
    ||| c == '\u{1680}'
    ||| '\u{2000}' <= c <= '\u{200a}'
    ||| c == '\u{2028}'
    ||| c == '\u{2029}'
    ||| c == '\u{202f}'
    ||| c == '\u{205f}'
    ||| c == '\u{3000}'
}

/// The index of the first `c` in `s[i..hi)`, or `hi` when there is none.
pub open spec fn find_in(s: Seq<char>, i: int, hi: int, c: char) -> int
    decreases hi - i,
{
    if i >= hi {
        hi
    } else if s[i] == c {
        i
    } else {
        find_in(s, i + 1, hi, c)
    }
}

/// The index of the first character of `s[i..hi)` that is not white space,
/// or `hi` when there is none: where `s[i..hi)` starts once trimmed at the front.
pub open spec fn skip_ws_in(s: Seq<char>, i: int, hi: int) -> int
    decreases hi - i,
{
    if i >= hi {
        hi
    } else if is_white_space(s[i]) {
        skip_ws_in(s, i + 1, hi)
    } else {
        i
    }
}

/// The end of `s[lo..hi)` once trailing white space is trimmed.
pub open spec fn trim_back(s: Seq<char>, lo: int, hi: int) -> int
    decreases hi - lo,
{
    if hi <= lo {
        lo
    } else if is_white_space(s[hi - 1]) {
        trim_back(s, lo, hi - 1)
    } else {
        hi
    }
}

/// `find_in` is the first match at or after `i`.
pub proof fn lemma_find_in(s: Seq<char>, i: int, hi: int, c: char, j: int)
    requires
        i <= j <= hi,
        forall|k: int| i <= k < j ==> s[k] != c,
        j == hi || s[j] == c,
    ensures
        find_in(s, i, hi, c) == j,
    decreases j - i,
{
    if i < j {
        lemma_find_in(s, i + 1, hi, c, j);
    }
}

/// Bounds of `find_in`, and that what it skips holds no `c`.
pub proof fn lemma_find_in_bounds(s: Seq<char>, i: int, hi: int, c: char)
    requires
        i <= hi,
    ensures
        i <= find_in(s, i, hi, c) <= hi,
        forall|k: int| i <= k < find_in(s, i, hi, c) ==> s[k] != c,
        find_in(s, i, hi, c) < hi ==> s[find_in(s, i, hi, c)] == c,
    decreases hi - i,
{
    if i < hi && s[i] != c {
        lemma_find_in_bounds(s, i + 1, hi, c);
    }
}

/// `skip_ws_in` is the first non-white-space position at or after `i`.
pub proof fn lemma_skip_ws_in(s: Seq<char>, i: int, hi: int, j: int)
    requires
        i <= j <= hi,
        forall|k: int| i <= k < j ==> is_white_space(#[trigger] s[k]),
        j == hi || !is_white_space(s[j]),
    ensures
        skip_ws_in(s, i, hi) == j,
    decreases j - i,
{
    if i < j {
        lemma_skip_ws_in(s, i + 1, hi, j);
    }
}

/// `trim_back` is the end of the last non-white-space character.
pub proof fn lemma_trim_back(s: Seq<char>, lo: int, hi: int, j: int)
    requires
        lo <= j <= hi,
        forall|k: int| j <= k < hi ==> is_white_space(#[trigger] s[k]),
        j == lo || !is_white_space(s[j - 1]),
    ensures
        trim_back(s, lo, hi) == j,
    decreases hi - j,
{
    if j < hi {
        lemma_trim_back(s, lo, hi - 1, j);
    }
}

/// What `skip_ws_in` skips is white space, and it stops at a non-white-space
/// character or at `hi`.
pub proof fn lemma_skip_ws_in_bounds(s: Seq<char>, i: int, hi: int)
    requires
        i <= hi,
    ensures
        i <= skip_ws_in(s, i, hi) <= hi,
        forall|k: int| i <= k < skip_ws_in(s, i, hi) ==> is_white_space(#[trigger] s[k]),
        skip_ws_in(s, i, hi) < hi ==> !is_white_space(s[skip_ws_in(s, i, hi)]),
    decreases hi - i,
{
    if i < hi && is_white_space(s[i]) {
        lemma_skip_ws_in_bounds(s, i + 1, hi);
    }
}

/// What `trim_back` cuts is white space, and it stops after a
/// non-white-space character or at `lo`.
pub proof fn lemma_trim_back_bounds(s: Seq<char>, lo: int, hi: int)
    requires
        lo <= hi,
    ensures
        lo <= trim_back(s, lo, hi) <= hi,
        forall|k: int| trim_back(s, lo, hi) <= k < hi ==> is_white_space(#[trigger] s[k]),
        lo < trim_back(s, lo, hi) ==> !is_white_space(s[trim_back(s, lo, hi) - 1]),
    decreases hi - lo,
{
    if lo < hi && is_white_space(s[hi - 1]) {
        lemma_trim_back_bounds(s, lo, hi - 1);
    }
}

/// Collects the characters of `s` into a vector.
pub(crate) fn chars_of(s: &str) -> (v: Vec<char>)
    ensures
        v@ == s@,
{
    let mut v: Vec<char> = Vec::new();
    for c in it: s.chars()
        invariant
            v@ == it.seq().take(it.index() as int),
    {
        v.push(c);
    }
    v
}

/// Whether `c` is white space, as `char::is_whitespace` decides it.
pub(crate) fn is_white_space_char(c: char) -> (b: bool)
    ensures
        b == is_white_space(c),
{
    ('\t' <= c && c <= '\r') || c == ' ' || c == '\u{85}' || c == '\u{a0}' || c == '\u{1680}'
        || ('\u{2000}' <= c && c <= '\u{200a}') || c == '\u{2028}' || c == '\u{2029}' || c
        == '\u{202f}' || c == '\u{205f}' || c == '\u{3000}'
}

/// The index of the first `c` in `s[i..hi)`, or `hi`.
pub(crate) fn find_char(s: &Vec<char>, i: usize, hi: usize, c: char) -> (r: usize)
    requires
        i <= hi <= s@.len(),
    ensures
        r == find_in(s@, i as int, hi as int, c),
        i <= r <= hi,
{
    let mut j = i;
    while j < hi
        invariant
            i <= j <= hi <= s@.len(),
            forall|k: int| i <= k < j ==> s@[k] != c,
        ensures
            i <= j <= hi,
            forall|k: int| i <= k < j ==> s@[k] != c,
            j == hi || s@[j as int] == c,
        decreases hi - j,
    {
        if s[j] == c {
            break;
        }
        j += 1;
    }
    proof {
        lemma_find_in(s@, i as int, hi as int, c, j as int);
    }
    j
}

/// The bounds of `s[lo..hi)` with white space trimmed at both ends.
pub(crate) fn trim_range(s: &Vec<char>, lo: usize, hi: usize) -> (r: (usize, usize))
    requires
        lo <= hi <= s@.len(),
    ensures
        r.0 == skip_ws_in(s@, lo as int, hi as int),
        r.1 == trim_back(s@, r.0 as int, hi as int),
        lo <= r.0 <= r.1 <= hi,
{
    let a = trim_start_index(s, lo, hi);
    let b = trim_end_index(s, a, hi);
    (a, b)
}

/// `skip_ws_in` computed.
pub(crate) fn trim_start_index(s: &Vec<char>, lo: usize, hi: usize) -> (r: usize)
    requires
        lo <= hi <= s@.len(),
    ensures
        r == skip_ws_in(s@, lo as int, hi as int),
        lo <= r <= hi,
{
    let mut a = lo;
    while a < hi
        invariant
            lo <= a <= hi <= s@.len(),
            forall|k: int| lo <= k < a ==> is_white_space(#[trigger] s@[k]),
        ensures
            lo <= a <= hi,
            forall|k: int| lo <= k < a ==> is_white_space(#[trigger] s@[k]),
            a == hi || !is_white_space(s@[a as int]),
        decreases hi - a,
    {
        if !is_white_space_char(s[a]) {
            break;
        }
        a += 1;
    }
    proof {
        lemma_skip_ws_in(s@, lo as int, hi as int, a as int);
    }
    a
}

/// `trim_back` computed.
pub(crate) fn trim_end_index(s: &Vec<char>, lo: usize, hi: usize) -> (r: usize)
    requires
        lo <= hi <= s@.len(),
    ensures
        r == trim_back(s@, lo as int, hi as int),
        lo <= r <= hi,
{
    let mut b = hi;
    while b > lo
        invariant
            lo <= b <= hi <= s@.len(),
            forall|k: int| b <= k < hi ==> is_white_space(#[trigger] s@[k]),
        ensures
            lo <= b <= hi,
            forall|k: int| b <= k < hi ==> is_white_space(#[trigger] s@[k]),
            b == lo || !is_white_space(s@[b - 1]),
        decreases b - lo,
    {
        if !is_white_space_char(s[b - 1]) {
            break;
        }
        b -= 1;
    }
    proof {
        lemma_trim_back(s@, lo as int, hi as int, b as int);
    }
    b
}

/// UTF-8 encoding distributes over concatenation.
pub proof fn lemma_encode_utf8_concat(a: Seq<char>, b: Seq<char>)
    ensures
        encode_utf8(a + b) == encode_utf8(a) + encode_utf8(b),
    decreases a.len(),
{
    if a.len() == 0 {
        assert(a + b =~= b);
    } else {
        assert((a + b).drop_first() =~= a.drop_first() + b);
        lemma_encode_utf8_concat(a.drop_first(), b);
        assert((a + b)[0] == a[0]);
    }
}

/// Appends the UTF-8 encoding of `c` to `out`.
fn push_utf8(out: &mut Vec<u8>, c: char)
    ensures
        final(out)@ == old(out)@ + encode_scalar(c as u32),
{
    let v = c as u32;
    if v <= 0x7f {
        out.push((v & 0x7f) as u8);
    } else if v <= 0x7ff {
        out.push(0xc0 | ((v >> 6) & 0x1f) as u8);
        out.push(0x80 | (v & 0x3f) as u8);
    } else if v <= 0xffff {
        out.push(0xe0 | ((v >> 12) & 0x0f) as u8);
        out.push(0x80 | ((v >> 6) & 0x3f) as u8);
        out.push(0x80 | (v & 0x3f) as u8);
    } else {
        out.push(0xf0 | ((v >> 18) & 0x7) as u8);
        out.push(0x80 | ((v >> 12) & 0x3f) as u8);
        out.push(0x80 | ((v >> 6) & 0x3f) as u8);
        out.push(0x80 | (v & 0x3f) as u8);
    }
    proof {
        vstd::utf8::char_is_scalar(c);
    }
    assert(out@ =~= old(out)@ + encode_scalar(c as u32));
}

/// The UTF-8 bytes of `s[lo..hi)`.
pub(crate) fn encode_range_utf8(s: &Vec<char>, lo: usize, hi: usize) -> (r: Vec<u8>)
    requires
        lo <= hi <= s@.len(),
    ensures
        r@ == encode_utf8(s@.subrange(lo as int, hi as int)),
{
    let mut out: Vec<u8> = Vec::new();
    let mut i = lo;
    while i < hi
        invariant
            lo <= i <= hi <= s@.len(),
            out@ == encode_utf8(s@.subrange(lo as int, i as int)),
        decreases hi - i,
    {
        let c = s[i];
        proof {
            let pre = s@.subrange(lo as int, i as int);
            assert(s@.subrange(lo as int, i + 1) =~= pre + seq![c]);
            lemma_encode_utf8_concat(pre, seq![c]);
            let one = seq![c];
            assert(one.drop_first() =~= Seq::<char>::empty());
            assert(encode_utf8(one.drop_first()) =~= Seq::<u8>::empty());
            assert(one[0] == c);
            assert(encode_utf8(one) =~= encode_scalar(c as u32));
        }
        push_utf8(&mut out, c);
        i += 1;
    }
    out
}

/// A copy of `s[lo..hi)`.
pub(crate) fn copy_range(s: &Vec<char>, lo: usize, hi: usize) -> (r: Vec<char>)
    requires
        lo <= hi <= s@.len(),
    ensures
        r@ == s@.subrange(lo as int, hi as int),
{
    let mut out: Vec<char> = Vec::new();
    let mut k = lo;
    while k < hi
        invariant
            lo <= k <= hi <= s@.len(),
            out@ == s@.subrange(lo as int, k as int),
        decreases hi - k,
    {
        out.push(s[k]);
        assert(s@.subrange(lo as int, k + 1) =~= s@.subrange(lo as int, k as int).push(s@[k as int]));
        k += 1;
    }
    out
}

/// Appends one character to a string.
///
/// Calls `String::push`, which std documents as appending the given `char`
/// to the end of the string; the contract states exactly that.
#[verifier::external_body]
pub(crate) fn push_char(s: &mut String, c: char)
    ensures
        final(s)@ == old(s)@.push(c),
{
    s.push(c);
}

} // verus!
