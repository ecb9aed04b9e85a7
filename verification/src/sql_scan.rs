use vstd::prelude::*;

use crate::schema_dump::{lower_match_at, lowercase};

verus! {

/// What a statement read so far leaves open at the end of a line.
#[derive(Debug, Clone, Copy, PartialEq, Eq)]
pub enum Quote {
    /// Outside any quoted text.
    Plain,
    /// Inside a `'...'` string.
    Single,
    /// Inside a `"..."` identifier.
    Double,
    /// Inside a `$tag$...$tag$` dollar-quoted body.
    Dollar,
}

/// A character that may start an SQL word or a dollar-quote tag.
pub open spec fn is_ident_start(c: char) -> bool {
    ('a' <= c <= 'z') || ('A' <= c <= 'Z') || c == '_'
}

/// A character of an SQL word or of a dollar-quote tag.
pub open spec fn is_word_char(c: char) -> bool {
    is_ident_start(c) || ('0' <= c <= '9')
}

/// The end of the run of word characters that starts at `i`.
pub open spec fn tag_end(s: Seq<char>, i: int) -> int
    decreases s.len() - i,
{
    if 0 <= i < s.len() && is_word_char(s[i]) {
        tag_end(s, i + 1)
    } else {
        i
    }
}

/// The end of the word that starts at `i`: word characters and `$`.
pub open spec fn word_end(s: Seq<char>, i: int) -> int
    decreases s.len() - i,
{
    if 0 <= i < s.len() && (is_word_char(s[i]) || s[i] == '$') {
        word_end(s, i + 1)
    } else {
        i
    }
}

/// Whether a dollar quote opens at `i`: `$`, a tag of word characters that
/// does not start with a digit (it may be empty), then `$`.
pub open spec fn opens_dollar_quote(s: Seq<char>, i: int) -> bool {
    let j = tag_end(s, i + 1);
    &&& s[i] == '$'
    &&& j == i + 1 || is_ident_start(s[i + 1])
    &&& j < s.len()
    &&& s[j] == '$'
}

/// Whether the dollar quote with `tag` closes at `i`.
pub open spec fn closes_dollar_quote(s: Seq<char>, i: int, tag: Seq<char>) -> bool {
    &&& i + tag.len() + 2 <= s.len()
    &&& s[i] == '$'
    &&& s.subrange(i + 1, i + 1 + tag.len()) == tag
    &&& s[i + 1 + tag.len()] == '$'
}

/// The nesting depth after the word `w`: `BEGIN` and `CASE` open a block,
/// `END` closes one, in any ASCII case.
pub open spec fn depth_after_word(w: Seq<char>, d: nat) -> nat {
    let lw = lowercase(w);
    if lw == "begin"@ || lw == "case"@ {
        d + 1
    } else if lw == "end"@ && d > 0 {
        (d - 1) as nat
    } else {
        d
    }
}

/// Bounds of `tag_end`.
pub proof fn lemma_tag_end(s: Seq<char>, i: int, j: int)
    requires
        0 <= i <= j <= s.len(),
        forall|k: int| i <= k < j ==> is_word_char(#[trigger] s[k]),
        j == s.len() || !is_word_char(s[j]),
    ensures
        tag_end(s, i) == j,
    decreases j - i,
{
    if i < j {
        lemma_tag_end(s, i + 1, j);
    }
}

/// `tag_end` does not go back.
pub proof fn lemma_tag_end_bounds(s: Seq<char>, i: int)
    requires
        0 <= i <= s.len(),
    ensures
        i <= tag_end(s, i) <= s.len(),
    decreases s.len() - i,
{
    if i < s.len() && is_word_char(s[i]) {
        lemma_tag_end_bounds(s, i + 1);
    }
}

/// Characterization of `word_end`.
pub proof fn lemma_word_end(s: Seq<char>, i: int, j: int)
    requires
        0 <= i <= j <= s.len(),
        forall|k: int| i <= k < j ==> (is_word_char(#[trigger] s[k]) || s[k] == '$'),
        j == s.len() || !(is_word_char(s[j]) || s[j] == '$'),
    ensures
        word_end(s, i) == j,
    decreases j - i,
{
    if i < j {
        lemma_word_end(s, i + 1, j);
    }
}

/// `word_end` does not go back.
pub proof fn lemma_word_end_bounds(s: Seq<char>, i: int)
    requires
        0 <= i <= s.len(),
    ensures
        i <= word_end(s, i) <= s.len(),
    decreases s.len() - i,
{
    if i < s.len() && (is_word_char(s[i]) || s[i] == '$') {
        lemma_word_end_bounds(s, i + 1);
    }
}

/// The quoting state and block depth after reading `s[i..]` from state
/// `(q, tag, d)`. Quotes (`'`, `"`, dollar quotes) are followed; outside
/// them a `--` comment ends the reading of the line and words count blocks.
pub open spec fn scan(s: Seq<char>, i: int, q: Quote, tag: Seq<char>, d: nat) -> (
    Quote,
    Seq<char>,
    nat,
)
    decreases s.len() - i,
{
    if i < 0 || i >= s.len() {
        (q, tag, d)
    } else {
        match q {
            Quote::Single => if s[i] == '\'' {
                scan(s, i + 1, Quote::Plain, seq![], d)
            } else {
                scan(s, i + 1, Quote::Single, tag, d)
            },
            Quote::Double => if s[i] == '"' {
                scan(s, i + 1, Quote::Plain, seq![], d)
            } else {
                scan(s, i + 1, Quote::Double, tag, d)
            },
            Quote::Dollar => if closes_dollar_quote(s, i, tag) {
                scan(s, i + tag.len() + 2, Quote::Plain, seq![], d)
            } else {
                scan(s, i + 1, Quote::Dollar, tag, d)
            },
            Quote::Plain => if s[i] == '\'' {
                scan(s, i + 1, Quote::Single, seq![], d)
            } else if s[i] == '"' {
                scan(s, i + 1, Quote::Double, seq![], d)
            } else if s[i] == '-' && i + 1 < s.len() && s[i + 1] == '-' {
                (Quote::Plain, seq![], d)
            } else if opens_dollar_quote(s, i) {
                let j = tag_end(s, i + 1);
                proof {
                    lemma_tag_end_bounds(s, i + 1);
                }
                scan(s, j + 1, Quote::Dollar, s.subrange(i + 1, j), d)
            } else if is_word_char(s[i]) {
                let j = word_end(s, i);
                proof {
                    lemma_word_end_bounds(s, i + 1);
                }
                scan(s, j, Quote::Plain, seq![], depth_after_word(s.subrange(i, j), d))
            } else {
                scan(s, i + 1, Quote::Plain, seq![], d)
            },
        }
    }
}

/// The lowercase words that open and close blocks.
pub(crate) struct BlockWords {
    pub begin: Vec<char>,
    pub case: Vec<char>,
    pub end: Vec<char>,
}

impl BlockWords {
    pub(crate) open spec fn wf(&self) -> bool {
        &&& self.begin@ == "begin"@
        &&& self.case@ == "case"@
        &&& self.end@ == "end"@
    }

    pub(crate) fn new() -> (r: Self)
        ensures
            r.wf(),
    {
        BlockWords {
            begin: crate::text::chars_of("begin"),
            case: crate::text::chars_of("case"),
            end: crate::text::chars_of("end"),
        }
    }
}

/// Whether `s[i..j)`, lowercased, is `w`.
fn word_is(s: &Vec<char>, i: usize, j: usize, w: &Vec<char>) -> (b: bool)
    requires
        i <= j <= s@.len(),
    ensures
        b == (lowercase(s@.subrange(i as int, j as int)) == w@),
{
    if j - i != w.len() {
        return false;
    }
    lower_match_at(s, i, w)
}

/// `tag_end` computed.
fn find_tag_end(s: &Vec<char>, i: usize) -> (j: usize)
    requires
        i <= s@.len(),
    ensures
        j == tag_end(s@, i as int),
        i <= j <= s@.len(),
{
    let n = s.len();
    let mut j = i;
    while j < n && is_word_char_exec(s[j])
        invariant
            i <= j <= n,
            n == s@.len(),
            forall|k: int| i <= k < j ==> is_word_char(#[trigger] s@[k]),
        decreases n - j,
    {
        j += 1;
    }
    proof {
        lemma_tag_end(s@, i as int, j as int);
    }
    j
}

/// `word_end` computed.
fn find_word_end(s: &Vec<char>, i: usize) -> (j: usize)
    requires
        i <= s@.len(),
    ensures
        j == word_end(s@, i as int),
        i <= j <= s@.len(),
{
    let n = s.len();
    let mut j = i;
    while j < n && (is_word_char_exec(s[j]) || s[j] == '$')
        invariant
            i <= j <= n,
            n == s@.len(),
            forall|k: int| i <= k < j ==> (is_word_char(#[trigger] s@[k]) || s@[k] == '$'),
        decreases n - j,
    {
        j += 1;
    }
    proof {
        lemma_word_end(s@, i as int, j as int);
    }
    j
}

/// Whether `c` is a word character.
fn is_word_char_exec(c: char) -> (b: bool)
    ensures
        b == is_word_char(c),
{
    ('a' <= c && c <= 'z') || ('A' <= c && c <= 'Z') || c == '_' || ('0' <= c && c <= '9')
}

/// Whether the dollar quote with `tag` closes at `i`.
fn closes_at(s: &Vec<char>, i: usize, tag: &Vec<char>) -> (b: bool)
    requires
        i < s@.len(),
    ensures
        b == closes_dollar_quote(s@, i as int, tag@),
{
    let n = s.len();
    let t = tag.len();
    if t > n || i > n - t || n - t - i < 2 || s[i] != '$' {
        return false;
    }
    let mut k: usize = 0;
    while k < t
        invariant
            t == tag@.len(),
            n == s@.len(),
            i + t + 2 <= n,
            k <= t,
            forall|x: int| 0 <= x < k ==> s@[i + 1 + x] == tag@[x],
        decreases t - k,
    {
        if s[i + 1 + k] != tag[k] {
            assert(s@.subrange(i + 1, i + 1 + t)[k as int] != tag@[k as int]);
            return false;
        }
        k += 1;
    }
    assert(s@.subrange(i + 1, i + 1 + t) =~= tag@);
    s[i + 1 + t] == '$'
}

/// Reads the line `s` from the state `(q, tag, depth)`, as `scan` does.
pub(crate) fn scan_line(
    s: &Vec<char>,
    q_in: Quote,
    tag_in: Vec<char>,
    depth: usize,
    words: &BlockWords,
) -> (r: (
    Quote,
    Vec<char>,
    usize,
))
    requires
        depth + s@.len() <= usize::MAX,
        words.wf(),
    ensures
        (r.0, r.1@, r.2 as nat) == scan(s@, 0, q_in, tag_in@, depth as nat),
        r.2 <= depth + s@.len(),
{
    let n = s.len();
    let mut i: usize = 0;
    let mut q = q_in;
    let mut tag = tag_in;
    let mut d = depth;
    let ghost q0 = q_in;
    let ghost tag0 = tag@;
    loop
        invariant
            n == s@.len(),
            i <= n,
            d <= depth + i,
            depth + n <= usize::MAX,
            words.wf(),
            q0 == q_in,
            tag0 == tag_in@,
            scan(s@, 0, q0, tag0, depth as nat) == scan(s@, i as int, q, tag@, d as nat),
        decreases n - i,
    {
        if i >= n {
            assert(scan(s@, i as int, q, tag@, d as nat) == (q, tag@, d as nat));
            return (q, tag, d);
        }
        let c = s[i];
        match q {
            Quote::Single => {
                if c == '\'' {
                    q = Quote::Plain;
                    tag = Vec::new();
                }
                i += 1;
            },
            Quote::Double => {
                if c == '"' {
                    q = Quote::Plain;
                    tag = Vec::new();
                }
                i += 1;
            },
            Quote::Dollar => {
                if closes_at(s, i, &tag) {
                    i = i + tag.len() + 2;
                    q = Quote::Plain;
                    tag = Vec::new();
                } else {
                    i += 1;
                }
            },
            Quote::Plain => {
                if c == '\'' {
                    q = Quote::Single;
                    tag = Vec::new();
                    i += 1;
                } else if c == '"' {
                    q = Quote::Double;
                    tag = Vec::new();
                    i += 1;
                } else if c == '-' && i + 1 < n && s[i + 1] == '-' {
                    let empty: Vec<char> = Vec::new();
                    assert(empty@ =~= Seq::<char>::empty());
                    assert(scan(s@, i as int, q, tag@, d as nat) == (Quote::Plain, empty@, d as nat));
                    return (Quote::Plain, empty, d);
                } else {
                    let j = find_tag_end(s, i + 1);
                    let opens = c == '$' && (j == i + 1 || is_ident_start_exec(s[i + 1])) && j < n
                        && s[j] == '$';
                    if opens {
                        tag = crate::text::copy_range(s, i + 1, j);
                        q = Quote::Dollar;
                        i = j + 1;
                    } else if is_word_char_exec(c) {
                        let k = find_word_end(s, i);
                        proof {
                            crate::sql_scan::lemma_word_end_bounds(s@, i + 1);
                        }
                        if word_is(s, i, k, &words.begin) || word_is(s, i, k, &words.case) {
                            d = d + 1;
                        } else if word_is(s, i, k, &words.end) && d > 0 {
                            d = d - 1;
                        }
                        tag = Vec::new();
                        i = k;
                    } else {
                        tag = Vec::new();
                        i += 1;
                    }
                }
            },
        }
    }
}

/// Whether `c` may start a word or tag.
fn is_ident_start_exec(c: char) -> (b: bool)
    ensures
        b == is_ident_start(c),
{
    ('a' <= c && c <= 'z') || ('A' <= c && c <= 'Z') || c == '_'
}

} // verus!
