use vstd::prelude::*;
use vstd::utf8::encode_utf8;

use crate::error::{MigrateError, SquashEpochParseError};
use crate::hex::{decode_hex, encode_hex_into, hex_decode, hex_encode};
use crate::text::{
    chars_of, encode_range_utf8, find_char, find_in, lemma_find_in_bounds, skip_ws_in, trim_back,
    trim_range, trim_start_index,
};

verus! {

/// The keyword after `--`, in lowercase; it is matched ASCII-case-insensitively.
pub open spec fn epoch_keyword() -> Seq<char> {
    seq!['s', 'q', 'u', 'a', 's', 'h', ' ', 'e', 'p', 'o', 'c', 'h']
}

/// ASCII lowercasing of one character; other characters are unchanged.
pub open spec fn ascii_lower(c: char) -> char {
    if 'A' <= c <= 'Z' {
        ((c as u32) + 32) as char
    } else {
        c
    }
}

/// The first line of `s[i..]` (lines end at `'\n'`) whose trimmed content is
/// not empty, as the bounds of that trimmed content.
///
/// A `'\r'` before a `'\n'` is white space, so trimming removes it: these are
/// the trimmed lines of `str::lines`.
pub open spec fn first_content_line(s: Seq<char>, i: int) -> Option<(int, int)>
    decreases s.len() - i,
{
    if i < 0 || i > s.len() {
        None
    } else {
        let e = find_in(s, i, s.len() as int, '\n');
        let a = skip_ws_in(s, i, e);
        let b = trim_back(s, a, e);
        if a < b {
            Some((a, b))
        } else if e >= s.len() {
            None
        } else {
            proof {
                lemma_find_in_bounds(s, i, s.len() as int, '\n');
            }
            first_content_line(s, e + 1)
        }
    }
}

/// Whether the character at `c + k` matches the `k`-th keyword character,
/// ignoring ASCII case.
pub open spec fn keyword_char_at(s: Seq<char>, c: int, k: int) -> bool {
    ascii_lower(s[c + k]) == epoch_keyword()[k]
}

/// Whether the keyword stands at `c`, in any ASCII case.
pub open spec fn keyword_at(s: Seq<char>, c: int) -> bool {
    forall|k: int| 0 <= k < 12 ==> #[trigger] keyword_char_at(s, c, k)
}

/// The checksums of a list of byte vectors, as sequences.
pub open spec fn bytes_list(v: Seq<Vec<u8>>) -> Seq<Seq<u8>> {
    v.map_values(|x: Vec<u8>| x@)
}

/// Where the checksum list starts when the trimmed line `s[a..b)` is an epoch
/// header: `--`, optional white space, the keyword in any ASCII case, then
/// optional white space.
///
/// The keyword is compared character by character: a non-ASCII character
/// never matches an ASCII one, so this agrees with comparing the first twelve
/// UTF-8 bytes ignoring ASCII case.
pub open spec fn epoch_list_start(s: Seq<char>, a: int, b: int) -> Option<int> {
    if b - a >= 2 && s[a] == '-' && s[a + 1] == '-' {
        let c = skip_ws_in(s, a + 2, b);
        if b - c >= 12 && keyword_at(s, c) {
            Some(skip_ws_in(s, c + 12, b))
        } else {
            None
        }
    } else {
        None
    }
}

/// Parsing the comma-separated list `s[i..b)`: each entry is trimmed, must
/// not be empty, and is hex-decoded from its UTF-8 bytes. The first entry that
/// fails decides the error.
pub open spec fn checksum_list(s: Seq<char>, i: int, b: int) -> Result<Seq<Seq<u8>>, MigrateError>
    decreases b - i,
{
    if i > b {
        Ok(seq![])
    } else {
        let e = find_in(s, i, b, ',');
        let p = skip_ws_in(s, i, e);
        let q = trim_back(s, p, e);
        if p >= q {
            Err(MigrateError::SquashEpochParse(SquashEpochParseError::EmptyChecksumEntry))
        } else {
            match hex_decode(encode_utf8(s.subrange(p, q))) {
                Err(err) => Err(err),
                Ok(v) => if e >= b {
                    Ok(seq![v])
                } else {
                    proof {
                        lemma_find_in_bounds(s, i, b, ',');
                    }
                    match checksum_list(s, e + 1, b) {
                        Ok(vs) => Ok(seq![v] + vs),
                        Err(err) => Err(err),
                    }
                },
            }
        }
    }
}

/// What `parse_squash_epoch` gives for the text `s`.
pub open spec fn squash_epoch(s: Seq<char>) -> Result<Option<Seq<Seq<u8>>>, MigrateError> {
    match first_content_line(s, 0) {
        None => Ok(None),
        Some((a, b)) => match epoch_list_start(s, a, b) {
            None => Ok(None),
            Some(r) => if r >= b {
                Err(MigrateError::SquashEpochParse(SquashEpochParseError::MissingChecksums))
            } else {
                match checksum_list(s, r, b) {
                    Ok(cs) => Ok(Some(cs)),
                    Err(err) => Err(err),
                }
            },
        },
    }
}

/// `acc` put in front of the list in `r`, errors passed through.
pub open spec fn prepend_list(acc: Seq<Seq<u8>>, r: Result<Seq<Seq<u8>>, MigrateError>) -> Result<
    Seq<Seq<u8>>,
    MigrateError,
> {
    match r {
        Ok(v) => Ok(acc + v),
        Err(e) => Err(e),
    }
}

/// The header text before the checksums.
pub open spec fn header_prefix() -> Seq<char> {
    seq!['-', '-', ' ', 'S', 'Q', 'U', 'A', 'S', 'H', ' ', 'E', 'P', 'O', 'C', 'H', ' ']
}

/// The checksums in hex, separated by commas.
pub open spec fn join_hex(cs: Seq<Seq<u8>>) -> Seq<char>
    decreases cs.len(),
{
    if cs.len() == 0 {
        seq![]
    } else if cs.len() == 1 {
        hex_encode(cs[0])
    } else {
        hex_encode(cs[0]) + seq![','] + join_hex(cs.drop_first())
    }
}

/// The header line that records the checksums `cs`.
pub open spec fn epoch_header(cs: Seq<Seq<u8>>) -> Seq<char> {
    header_prefix() + join_hex(cs)
}

/// Appending one more checksum to the joined list.
pub proof fn lemma_join_hex_push(cs: Seq<Seq<u8>>, x: Seq<u8>)
    ensures
        join_hex(cs.push(x)) == if cs.len() == 0 {
            hex_encode(x)
        } else {
            join_hex(cs) + seq![','] + hex_encode(x)
        },
    decreases cs.len(),
{
    if cs.len() == 0 {
    } else if cs.len() == 1 {
        assert(cs.push(x).drop_first() =~= seq![x]);
        assert(join_hex(seq![x]) == hex_encode(x));
    } else {
        assert(cs.push(x).drop_first() =~= cs.drop_first().push(x));
        lemma_join_hex_push(cs.drop_first(), x);
    }
}

/// Finds the first line with content, as trimmed bounds.
fn find_first_content_line(s: &Vec<char>) -> (r: Option<(usize, usize)>)
    ensures
        match first_content_line(s@, 0) {
            None => r is None,
            Some((a, b)) => r matches Some((x, y)) && x == a && y == b,
        },
        r matches Some((x, y)) ==> x < y <= s@.len(),
{
    let n = s.len();
    let mut i: usize = 0;
    loop
        invariant
            n == s@.len(),
            i <= n,
            first_content_line(s@, 0) == first_content_line(s@, i as int),
        decreases n - i,
    {
        let e = find_char(s, i, n, '\n');
        let (a, b) = trim_range(s, i, e);
        if a < b {
            return Some((a, b));
        }
        if e >= n {
            return None;
        }
        i = e + 1;
    }
}

/// Whether `c` matches `k`, the keyword character, ignoring ASCII case.
fn keyword_char_matches(c: char, k: usize) -> (b: bool)
    requires
        k < 12,
    ensures
        b == (ascii_lower(c) == epoch_keyword()[k as int]),
{
    let lower = if 'A' <= c && c <= 'Z' {
        ((c as u32) + 32) as u8 as char
    } else {
        c
    };
    let expected = match k {
        0 => 's',
        1 => 'q',
        2 => 'u',
        3 => 'a',
        4 => 's',
        5 => 'h',
        6 => ' ',
        7 => 'e',
        8 => 'p',
        9 => 'o',
        10 => 'c',
        _ => 'h',
    };
    assert(lower == ascii_lower(c));
    lower == expected
}

/// Where the checksum list starts when `s[a..b)` is an epoch header.
fn find_epoch_list_start(s: &Vec<char>, a: usize, b: usize) -> (r: Option<usize>)
    requires
        a <= b <= s@.len(),
    ensures
        match epoch_list_start(s@, a as int, b as int) {
            None => r is None,
            Some(x) => r matches Some(y) && y == x,
        },
{
    if b - a < 2 || s[a] != '-' || s[a + 1] != '-' {
        return None;
    }
    let c = trim_start_index(s, a + 2, b);
    if b - c < 12 {
        return None;
    }
    let mut k: usize = 0;
    while k < 12
        invariant
            c + 12 <= b <= s@.len(),
            a + 2 <= b,
            s@[a as int] == '-' && s@[a + 1] == '-',
            c == skip_ws_in(s@, a + 2, b as int),
            k <= 12,
            forall|j: int| 0 <= j < k ==> #[trigger] keyword_char_at(s@, c as int, j),
        decreases 12 - k,
    {
        if !keyword_char_matches(s[c + k], k) {
            assert(!keyword_char_at(s@, c as int, k as int));
            return None;
        }
        k += 1;
    }
    Some(trim_start_index(s, c + 12, b))
}

/// Parse a `SQUASH EPOCH` header from migration SQL.
///
/// Expected form on the first non-empty line:
///
/// ```sql
/// -- SQUASH EPOCH <hex1>,<hex2>,...,<hexN>
/// ```
///
/// Each hex blob is a lowercase (or uppercase) encoding of a migration checksum
/// (SHA-384, 48 bytes / 96 hex chars), in ascending applied-version order.
///
/// Returns `Ok(None)` when no epoch header is present.
pub fn parse_squash_epoch(sql: &str) -> (r: Result<Option<Vec<Vec<u8>>>, MigrateError>)
    ensures
        match squash_epoch(sql@) {
            Ok(None) => r matches Ok(None),
            Ok(Some(cs)) => r matches Ok(Some(v)) && bytes_list(v@) == cs,
            Err(e) => r == Err::<Option<Vec<Vec<u8>>>, MigrateError>(e),
        },
{
    let chars = chars_of(sql);
    let (a, b) = match find_first_content_line(&chars) {
        None => return Ok(None),
        Some(line) => line,
    };
    let start = match find_epoch_list_start(&chars, a, b) {
        None => return Ok(None),
        Some(r) => r,
    };
    if start >= b {
        return Err(MigrateError::SquashEpochParse(SquashEpochParseError::MissingChecksums));
    }
    let mut checksums: Vec<Vec<u8>> = Vec::new();
    let mut i = start;
    loop
        invariant
            start <= i <= b <= chars@.len(),
            start < b,
            chars@ == sql@,
            first_content_line(sql@, 0) == Some((a as int, b as int)),
            epoch_list_start(sql@, a as int, b as int) == Some(start as int),
            checksum_list(sql@, start as int, b as int) == prepend_list(
                bytes_list(checksums@),
                checksum_list(sql@, i as int, b as int),
            ),
        decreases b - i,
    {
        let e = find_char(&chars, i, b, ',');
        let (p, q) = trim_range(&chars, i, e);
        if p >= q {
            return Err(MigrateError::SquashEpochParse(SquashEpochParseError::EmptyChecksumEntry));
        }
        let bytes = encode_range_utf8(&chars, p, q);
        let checksum = match decode_hex(bytes.as_slice()) {
            Ok(v) => v,
            Err(err) => return Err(err),
        };
        let ghost before = bytes_list(checksums@);
        let ghost v = checksum@;
        checksums.push(checksum);
        assert(bytes_list(checksums@) =~= before.push(v));
        proof {
            if e < b {
                match checksum_list(sql@, e + 1, b as int) {
                    Ok(vs) => {
                        assert(before + (seq![v] + vs) =~= before.push(v) + vs);
                    },
                    Err(_) => {},
                }
            }
        }
        if e >= b {
            return Ok(Some(checksums));
        }
        i = e + 1;
    }
}

/// Format applied migration checksums as a `SQUASH EPOCH` header line (without trailing newline).
pub fn format_squash_epoch_header(checksums: &[Vec<u8>]) -> (line: String)
    ensures
        line@ == epoch_header(bytes_list(checksums@)),
{
    let mut line = String::from_str("-- SQUASH EPOCH ");
    proof {
        reveal_strlit("-- SQUASH EPOCH ");
        reveal_strlit(",");
        assert(line@ =~= header_prefix());
    }
    let n = checksums.len();
    for i in 0..n
        invariant
            n == checksums@.len(),
            line@ == header_prefix() + join_hex(bytes_list(checksums@).take(i as int)),
    {
        let ghost prev = bytes_list(checksums@).take(i as int);
        proof {
            reveal_strlit(",");
        }
        if i > 0 {
            line.append(",");
        }
        encode_hex_into(checksums[i].as_slice(), &mut line);
        proof {
            assert(bytes_list(checksums@).take(i + 1) =~= prev.push(checksums@[i as int]@));
            lemma_join_hex_push(prev, checksums@[i as int]@);
        }
    }
    proof {
        assert(bytes_list(checksums@).take(n as int) =~= bytes_list(checksums@));
    }
    line
}

} // verus!
