use vstd::prelude::*;
use vstd::utf8::{encode_utf8, is_ascii_chars, is_ascii_chars_encode_utf8};

use crate::dump_args::{decimal, mysql_args};
use crate::hex::{hex_char, hex_decode, hex_digit_value, hex_encode};
use crate::schema_dump::{
    contains_seq, ends_statement, filtered_dump, is_standalone_line, join_lines, keep_statements,
    mentions_migrations_table, migrations_table, sqlite_statement_piece, text_lines, unit_kept,
};
use crate::sql_scan::{scan, Quote};
use crate::text::{
    is_white_space, lemma_skip_ws_in_bounds, lemma_trim_back, lemma_trim_back_bounds, skip_ws_in,
    trim_back,
};

verus! {

/// The lowercase hex digits, indexed by their value.
pub open spec fn lower_hex_digits() -> Seq<char> {
    "0123456789abcdef"@
}

/// The uppercase hex digits, indexed by their value.
pub open spec fn upper_hex_digits() -> Seq<char> {
    "0123456789ABCDEF"@
}

/// Hex digits are standard: the digit written for a nibble `k` is the `k`-th
/// character of `0123456789abcdef`, and the `k`-th character of that string
/// and of `0123456789ABCDEF` both read back as `k`.
pub proof fn lemma_hex_digits_standard()
    ensures
        forall|k: u8| k < 16 ==> #[trigger] hex_char(k) == lower_hex_digits()[k as int],
        forall|k: u8|
            k < 16 ==> #[trigger] hex_digit_value(lower_hex_digits()[k as int] as u8) == Some(k),
        forall|k: u8|
            k < 16 ==> #[trigger] hex_digit_value(upper_hex_digits()[k as int] as u8) == Some(k),
{
    reveal_strlit("0123456789abcdef");
    reveal_strlit("0123456789ABCDEF");
    assert forall|k: u8| k < 16 implies #[trigger] hex_char(k) == lower_hex_digits()[k as int]
        && hex_digit_value(lower_hex_digits()[k as int] as u8) == Some(k) && hex_digit_value(
        upper_hex_digits()[k as int] as u8,
    ) == Some(k) by {
        if k == 0 {
        } else if k == 1 {
        } else if k == 2 {
        } else if k == 3 {
        } else if k == 4 {
        } else if k == 5 {
        } else if k == 6 {
        } else if k == 7 {
        } else if k == 8 {
        } else if k == 9 {
        } else if k == 10 {
        } else if k == 11 {
        } else if k == 12 {
        } else if k == 13 {
        } else if k == 14 {
        } else {
        }
    }
}

/// Hex digits are read case-insensitively: an uppercase letter digit has the
/// value of its lowercase form, and no other byte changes meaning with case.
pub proof fn lemma_hex_digit_case_insensitive(b: u8)
    requires
        0x41 <= b <= 0x5a,
    ensures
        hex_digit_value(b) == hex_digit_value((b + 32) as u8),
{
}

/// The hex encoding spells each byte in standard hex, high nibble first.
pub proof fn lemma_hex_encode_standard(x: Seq<u8>)
    ensures
        hex_encode(x).len() == 2 * x.len(),
        forall|k: int|
            0 <= k < x.len() ==> #[trigger] hex_encode(x)[2 * k] == lower_hex_digits()[(x[k]
                / 16) as int] && hex_encode(x)[2 * k + 1] == lower_hex_digits()[(x[k]
                % 16) as int],
{
    lemma_hex_digits_standard();
    assert forall|k: int| 0 <= k < x.len() implies #[trigger] hex_encode(x)[2 * k]
        == lower_hex_digits()[(x[k] / 16) as int] && hex_encode(x)[2 * k + 1]
        == lower_hex_digits()[(x[k] % 16) as int] by {
        assert((2 * k) % 2 == 0 && (2 * k) / 2 == k);
        assert((2 * k + 1) % 2 == 1 && (2 * k + 1) / 2 == k);
        assert(x[k] / 16 < 16);
        assert(hex_char(x[k] / 16) == lower_hex_digits()[(x[k] / 16) as int]);
        assert(hex_char(x[k] % 16) == lower_hex_digits()[(x[k] % 16) as int]);
    }
}

/// Bytes written in uppercase hex.
pub open spec fn upper_hex(x: Seq<u8>) -> Seq<char> {
    Seq::new(
        2 * x.len(),
        |i: int|
            if i % 2 == 0 {
                upper_hex_digits()[(x[i / 2] / 16) as int]
            } else {
                upper_hex_digits()[(x[i / 2] % 16) as int]
            },
    )
}

/// Checksums written in uppercase hex decode to the same bytes as in lowercase.
pub proof fn lemma_upper_hex_decodes(x: Seq<u8>)
    ensures
        hex_decode(encode_utf8(upper_hex(x))) == Ok::<Seq<u8>, crate::error::MigrateError>(x),
{
    lemma_hex_digits_standard();
    reveal_strlit("0123456789ABCDEF");
    let h = upper_hex(x);
    assert forall|i: int| 0 <= i < h.len() implies '\0' <= #[trigger] h[i] <= '\u{7f}' by {
        let n: u8 = if i % 2 == 0 {
            x[i / 2] / 16
        } else {
            x[i / 2] % 16
        };
        assert(n < 16);
        assert(h[i] == upper_hex_digits()[n as int]);
    }
    assert(is_ascii_chars(h));
    is_ascii_chars_encode_utf8(h);
    let b = encode_utf8(h);
    assert forall|i: int| 0 <= i < b.len() implies hex_digit_value(#[trigger] b[i]) == Some(
        if i % 2 == 0 {
            x[i / 2] / 16
        } else {
            x[i / 2] % 16
        },
    ) by {
        assert(b[i] == h[i] as u8);
        assert(x[i / 2] / 16 < 16);
    }
    assert forall|i: int| 0 <= i < b.len() implies crate::hex::is_hex_digit(#[trigger] b[i]) by {
        assert(hex_digit_value(b[i]) is Some);
    }
    crate::hex::lemma_first_non_hex(b, 0, b.len() as int);
    assert forall|k: int| 0 <= k < x.len() implies #[trigger] crate::hex::decoded_pair(b, k)
        == x[k] by {
        assert((2 * k) % 2 == 0 && (2 * k) / 2 == k);
        assert((2 * k + 1) % 2 == 1 && (2 * k + 1) / 2 == k);
        assert(hex_digit_value(b[2 * k]) == Some(x[k] / 16));
        assert(hex_digit_value(b[2 * k + 1]) == Some(x[k] % 16));
    }
    assert(Seq::new(b.len() / 2, |k: int| crate::hex::decoded_pair(b, k)) =~= x);
}

/// The value of a string of decimal digits, most significant first.
pub open spec fn digits_value(s: Seq<char>) -> int
    decreases s.len(),
{
    if s.len() == 0 {
        0
    } else {
        digits_value(s.drop_last()) * 10 + (s.last() as int - 0x30)
    }
}

/// Whether every character is an ASCII digit.
pub open spec fn all_digits(s: Seq<char>) -> bool {
    forall|i: int| 0 <= i < s.len() ==> '0' <= #[trigger] s[i] <= '9'
}

/// The decimal text of `n` is base-10 digits, most significant first, with no
/// leading zero, whose value is `n`.
pub proof fn lemma_decimal_reads_back(n: nat)
    ensures
        decimal(n).len() >= 1,
        all_digits(decimal(n)),
        digits_value(decimal(n)) == n,
        decimal(n)[0] != '0' || decimal(n).len() == 1,
        n >= 10 ==> decimal(n).len() >= 2,
    decreases n,
{
    if n < 10 {
        let c = crate::dump_args::digit_char(n);
        assert(decimal(n) == seq![c]);
        assert(decimal(n).drop_last() =~= Seq::<char>::empty());
        assert(c as int == 0x30 + n);
        assert(digits_value(Seq::<char>::empty()) == 0);
        assert(digits_value(decimal(n)) == digits_value(decimal(n).drop_last()) * 10 + (c as int
            - 0x30));
    } else {
        lemma_decimal_reads_back(n / 10);
        let d = decimal(n);
        let p = decimal(n / 10);
        assert(d == p + seq![crate::dump_args::digit_char(n % 10)]);
        assert(d.drop_last() =~= p);
        assert(d[0] == p[0]);
        let c = crate::dump_args::digit_char(n % 10);
        assert(c as int == 0x30 + n % 10);
        assert(d.last() == c);
        assert(digits_value(d) == digits_value(p) * 10 + (c as int - 0x30));
        assert((n / 10) * 10 + n % 10 == n);
        if n / 10 < 10 {
            assert(p == seq![crate::dump_args::digit_char(n / 10)]);
            assert(p[0] as int == 0x30 + n / 10);
        }
        assert(d.len() > 1);
    }
}

/// The `-P` argument of the MySQL dump is the port's base-10 text (3306 when
/// the URL gives none).
pub proof fn lemma_mysql_port_argument(
    p: (Option<Seq<char>>, Option<u16>, Seq<char>, Option<Seq<char>>, Seq<char>),
)
    ensures
        mysql_args(p)[7] == "-P"@,
        all_digits(mysql_args(p)[8]),
        digits_value(mysql_args(p)[8]) == match p.1 {
            Some(x) => x as int,
            None => 3306int,
        },
        mysql_args(p)[8][0] != '0' || mysql_args(p)[8].len() == 1,
{
    let port: u16 = match p.1 {
        Some(x) => x,
        None => 3306,
    };
    lemma_decimal_reads_back(port as nat);
}

/// `t` with white space trimmed at both ends.
pub open spec fn trimmed(t: Seq<char>) -> Seq<char> {
    let a = skip_ws_in(t, 0, t.len() as int);
    t.subrange(a, trim_back(t, a, t.len() as int))
}

/// Every statement of a SQLite dump is terminated: a statement that does not
/// name the migrations table appears trimmed, then `;` exactly when its
/// trimmed text does not already end with one, then a newline; so its piece
/// always ends with `;` and a newline. A statement that names the table
/// leaves nothing.
pub proof fn lemma_sqlite_piece_terminated(t: Seq<char>)
    ensures
        contains_seq(t, migrations_table()) ==> sqlite_statement_piece(t).len() == 0,
        !contains_seq(t, migrations_table()) ==> sqlite_statement_piece(t) == if trimmed(t).len()
            > 0 && trimmed(t).last() == ';' {
            trimmed(t) + seq!['\n']
        } else {
            trimmed(t) + seq![';', '\n']
        },
        !contains_seq(t, migrations_table()) ==> {
            let p = sqlite_statement_piece(t);
            &&& p.len() >= 2
            &&& p[p.len() - 2] == ';'
            &&& p[p.len() - 1] == '\n'
        },
{
    let n = t.len() as int;
    let a = skip_ws_in(t, 0, n);
    lemma_skip_ws_in_bounds(t, 0, n);
    let b = trim_back(t, a, n);
    lemma_trim_back_bounds(t, a, n);
    let z = trim_back(t, 0, n);
    if a < n {
        assert(b > a) by {
            if b == a {
                assert(is_white_space(t[a]));
            }
        }
        lemma_trim_back(t, 0, n, b);
        assert(trimmed(t).last() == t[b - 1]);
    } else {
        lemma_trim_back(t, 0, n, 0);
        assert(trimmed(t).len() == 0);
    }
    if !contains_seq(t, migrations_table()) {
        let p = sqlite_statement_piece(t);
        let tr = trimmed(t);
        if tr.len() > 0 && tr.last() == ';' {
            assert(p[p.len() - 2] == tr.last());
        }
    }
}

/// The lines whose flag in `keep` is set, in order.
pub open spec fn select_lines(lines: Seq<Seq<char>>, keep: Seq<bool>) -> Seq<Seq<char>>
    decreases lines.len(),
{
    if lines.len() == 0 || keep.len() == 0 {
        seq![]
    } else {
        (if keep[0] {
            seq![lines[0]]
        } else {
            seq![]
        }) + select_lines(lines.drop_first(), keep.drop_first())
    }
}

/// Every line from `j` to `k` (either way round) is dropped.
pub open spec fn dropped_between(keep: Seq<bool>, j: int, k: int) -> bool {
    forall|x: int| ((j <= x <= k) || (k <= x <= j)) ==> !#[trigger] keep[x]
}

/// The dropped line `j` is joined, through dropped lines only, to a line that
/// mentions the migrations table.
pub open spec fn drop_has_cause(lines: Seq<Seq<char>>, keep: Seq<bool>, j: int) -> bool {
    exists|k: int|
        0 <= k < lines.len() && #[trigger] mentions_migrations_table(lines[k]) && dropped_between(
            keep,
            j,
            k,
        )
}

/// Every dropped line has a cause.
pub open spec fn drops_explained(lines: Seq<Seq<char>>, keep: Seq<bool>) -> bool {
    forall|j: int| 0 <= j < lines.len() && !keep[j] ==> #[trigger] drop_has_cause(lines, keep, j)
}

/// Selecting from a concatenation.
proof fn lemma_select_concat(a: Seq<Seq<char>>, ka: Seq<bool>, b: Seq<Seq<char>>, kb: Seq<bool>)
    requires
        a.len() == ka.len(),
        b.len() == kb.len(),
    ensures
        select_lines(a + b, ka + kb) == select_lines(a, ka) + select_lines(b, kb),
    decreases a.len(),
{
    if a.len() == 0 {
        assert(a + b =~= b);
        assert(ka + kb =~= kb);
    } else {
        assert((a + b).drop_first() =~= a.drop_first() + b);
        assert((ka + kb).drop_first() =~= ka.drop_first() + kb);
        lemma_select_concat(a.drop_first(), ka.drop_first(), b, kb);
        assert((a + b)[0] == a[0]);
        assert((ka + kb)[0] == ka[0]);
    }
}

/// Selecting with one flag for all lines.
proof fn lemma_select_uniform(a: Seq<Seq<char>>, flag: bool)
    ensures
        select_lines(a, Seq::new(a.len(), |i: int| flag)) == if flag {
            a
        } else {
            seq![]
        },
    decreases a.len(),
{
    if a.len() > 0 {
        let f = Seq::new(a.len(), |i: int| flag);
        assert(f.drop_first() =~= Seq::new(a.drop_first().len(), |i: int| flag));
        lemma_select_uniform(a.drop_first(), flag);
        if flag {
            assert(seq![a[0]] + a.drop_first() =~= a);
        } else {
            assert(Seq::<Seq<char>>::empty() + Seq::<Seq<char>>::empty() =~= Seq::<
                Seq<char>,
            >::empty());
        }
    } else {
        assert(a =~= Seq::<Seq<char>>::empty());
    }
}

/// Whether some line of `open` mentions the migrations table.
pub open spec fn some_mention(open: Seq<Seq<char>>) -> bool {
    exists|k: int| 0 <= k < open.len() && #[trigger] mentions_migrations_table(open[k])
}

/// For each line, whether it closes a unit of the dump: a blank or `--`
/// comment line read while no statement is open, or a line whose content ends
/// with `;` and that leaves no quote and no `BEGIN`/`CASE` block open. `open`
/// says whether a statement is open before the first line, and `(q, tag, d)`
/// what it leaves open.
pub open spec fn unit_ends(
    lines: Seq<Seq<char>>,
    open: bool,
    q: Quote,
    tag: Seq<char>,
    d: nat,
) -> Seq<bool>
    decreases lines.len(),
{
    if lines.len() == 0 {
        seq![]
    } else {
        let line = lines[0];
        let rest = lines.drop_first();
        if !open && is_standalone_line(line) {
            seq![true] + unit_ends(rest, false, Quote::Plain, seq![], 0)
        } else {
            let st = scan(line, 0, q, tag, d);
            if ends_statement(line) && st.0 == Quote::Plain && st.2 == 0 {
                seq![true] + unit_ends(rest, false, Quote::Plain, seq![], 0)
            } else {
                seq![false] + unit_ends(rest, true, st.0, st.1, st.2)
            }
        }
    }
}

/// The unit ends of `open + lines`, where `open` holds the lines of a
/// statement read so far.
pub open spec fn ends_after(
    open: Seq<Seq<char>>,
    lines: Seq<Seq<char>>,
    q: Quote,
    tag: Seq<char>,
    d: nat,
) -> Seq<bool> {
    Seq::new(open.len(), |i: int| false) + unit_ends(lines, open.len() > 0, q, tag, d)
}

/// A line that does not close a unit is kept or dropped with the next line.
pub open spec fn units_whole(ends: Seq<bool>, keep: Seq<bool>) -> bool {
    forall|j: int| 0 <= j < keep.len() - 1 && !#[trigger] ends[j] ==> keep[j] == keep[j + 1]
}

/// Every line that mentions the migrations table is dropped.
pub open spec fn mentions_dropped(lines: Seq<Seq<char>>, keep: Seq<bool>) -> bool {
    forall|j: int|
        0 <= j < lines.len() && #[trigger] mentions_migrations_table(lines[j]) ==> !keep[j]
}

/// No unit closes from `j` up to, not including, `k` (either way round): the
/// lines `j` and `k` lie in one unit.
pub open spec fn no_end_between(ends: Seq<bool>, j: int, k: int) -> bool {
    forall|x: int| ((j <= x < k) || (k <= x < j)) ==> !#[trigger] ends[x]
}

/// Line `j` lies in a unit with a line that mentions the migrations table.
pub open spec fn unit_mentions(lines: Seq<Seq<char>>, ends: Seq<bool>, j: int) -> bool {
    exists|k: int|
        0 <= k < lines.len() && #[trigger] mentions_migrations_table(lines[k]) && no_end_between(
            ends,
            j,
            k,
        )
}

/// Every dropped line lies in a unit that mentions the migrations table.
pub open spec fn drops_in_units(lines: Seq<Seq<char>>, ends: Seq<bool>, keep: Seq<bool>) -> bool {
    forall|j: int| 0 <= j < lines.len() && !keep[j] ==> #[trigger] unit_mentions(lines, ends, j)
}

/// A unit `u`, closed by its last line and kept unless it mentions the table,
/// followed by lines whose flags already keep units whole and drop exactly
/// the units that mention the table.
proof fn lemma_units_close(
    u: Seq<Seq<char>>,
    big: bool,
    rest: Seq<Seq<char>>,
    kr: Seq<bool>,
    er: Seq<bool>,
)
    requires
        u.len() >= 1,
        big == some_mention(u),
        kr.len() == rest.len(),
        er.len() == rest.len(),
        units_whole(er, kr),
        mentions_dropped(rest, kr),
        drops_in_units(rest, er, kr),
    ensures
        ({
            let keep = Seq::new(u.len(), |i: int| !big) + kr;
            let ends = Seq::new((u.len() - 1) as nat, |i: int| false) + seq![true] + er;
            &&& units_whole(ends, keep)
            &&& mentions_dropped(u + rest, keep)
            &&& drops_in_units(u + rest, ends, keep)
        }),
{
    let ul = u.len() as int;
    let keep = Seq::new(u.len(), |i: int| !big) + kr;
    let ends = Seq::new((u.len() - 1) as nat, |i: int| false) + seq![true] + er;
    let all = u + rest;
    assert forall|j: int| 0 <= j < keep.len() - 1 && !#[trigger] ends[j] implies keep[j] == keep[j
        + 1] by {
        if j >= ul {
            assert(ends[j] == er[j - ul]);
            assert(keep[j] == kr[j - ul]);
            assert(keep[j + 1] == kr[j + 1 - ul]);
        } else if j == ul - 1 {
            assert(ends[j] == true);
        }
    }
    assert forall|j: int|
        0 <= j < all.len() && #[trigger] mentions_migrations_table(all[j]) implies !keep[j] by {
        if j < ul {
            assert(all[j] == u[j]);
            assert(mentions_migrations_table(u[j]));
        } else {
            assert(all[j] == rest[j - ul]);
            assert(keep[j] == kr[j - ul]);
        }
    }
    assert forall|j: int| 0 <= j < all.len() && !keep[j] implies #[trigger] unit_mentions(
        all,
        ends,
        j,
    ) by {
        if j < ul {
            let k = choose|k: int| 0 <= k < u.len() && #[trigger] mentions_migrations_table(u[k]);
            assert(all[k] == u[k]);
            assert forall|x: int| ((j <= x < k) || (k <= x < j)) implies !#[trigger] ends[x] by {
                assert(x < ul - 1);
            }
            assert(no_end_between(ends, j, k));
        } else {
            assert(keep[j] == kr[j - ul]);
            assert(unit_mentions(rest, er, j - ul));
            let k = choose|k: int|
                0 <= k < rest.len() && #[trigger] mentions_migrations_table(rest[k])
                    && no_end_between(er, j - ul, k);
            assert(all[k + ul] == rest[k]);
            assert forall|x: int| ((j <= x < k + ul) || (k + ul <= x < j)) implies !#[trigger] ends[x] by {
                assert(ends[x] == er[x - ul]);
            }
            assert(no_end_between(ends, j, k + ul));
        }
    }
}

/// The units read by `keep_statements` are kept or dropped whole, and every
/// dropped line is tied, through dropped lines, to a mention of the table.
#[verifier::spinoff_prover]
#[verifier::rlimit(50)]
proof fn lemma_keep_statements_flags(
    lines: Seq<Seq<char>>,
    kept: Seq<Seq<char>>,
    open: Seq<Seq<char>>,
    mentioned: bool,
    q: Quote,
    tag: Seq<char>,
    d: nat,
) -> (keep: Seq<bool>)
    requires
        mentioned == some_mention(open),
    ensures
        keep.len() == open.len() + lines.len(),
        keep_statements(lines, kept, open, mentioned, q, tag, d) == kept + select_lines(
            open + lines,
            keep,
        ),
        drops_explained(open + lines, keep),
        unit_ends(lines, open.len() > 0, q, tag, d).len() == lines.len(),
        units_whole(ends_after(open, lines, q, tag, d), keep),
        mentions_dropped(open + lines, keep),
        drops_in_units(open + lines, ends_after(open, lines, q, tag, d), keep),
    decreases lines.len(),
{
    if lines.len() == 0 {
        let keep = Seq::new(open.len(), |i: int| !mentioned);
        lemma_select_uniform(open, !mentioned);
        assert(open + lines =~= open);
        let all = open + lines;
        let ends = ends_after(open, lines, q, tag, d);
        assert(ends =~= Seq::new(open.len(), |i: int| false));
        assert forall|j: int|
            0 <= j < all.len() && #[trigger] mentions_migrations_table(all[j]) implies !keep[j] by {
            assert(all[j] == open[j]);
            assert(mentions_migrations_table(open[j]));
        }
        assert forall|j: int| 0 <= j < all.len() && !keep[j] implies #[trigger] unit_mentions(
            all,
            ends,
            j,
        ) by {
            let k = choose|k: int| 0 <= k < open.len() && #[trigger] mentions_migrations_table(
                open[k],
            );
            assert(mentions_migrations_table(all[k]));
            assert(no_end_between(ends, j, k));
        }
        assert forall|j: int| 0 <= j < all.len() && !keep[j] implies #[trigger] drop_has_cause(
            all,
            keep,
            j,
        ) by {
            let k = choose|k: int| 0 <= k < open.len() && #[trigger] mentions_migrations_table(
                open[k],
            );
            assert(mentions_migrations_table(all[k]));
            assert(dropped_between(keep, j, k));
        }
        keep
    } else {
        let line = lines[0];
        let rest = lines.drop_first();
        let m = mentions_migrations_table(line);
        let st = scan(line, 0, q, tag, d);
        if open.len() == 0 && is_standalone_line(line) {
            let k2 = kept + unit_kept(seq![line], m);
            assert(!some_mention(Seq::<Seq<char>>::empty()));
            let kr = lemma_keep_statements_flags(rest, k2, seq![], false, Quote::Plain, seq![], 0);
            assert(Seq::<Seq<char>>::empty() + rest =~= rest);
            let keep = seq![!m] + kr;
            let all = open + lines;
            assert(all =~= seq![line] + rest);
            let er = unit_ends(rest, false, Quote::Plain, seq![], 0);
            assert(ends_after(Seq::<Seq<char>>::empty(), rest, Quote::Plain, seq![], 0) =~= er);
            assert(!some_mention(Seq::<Seq<char>>::empty()));
            assert(m == some_mention(seq![line])) by {
                if m {
                    assert(seq![line][0] == line);
                }
            }
            lemma_units_close(seq![line], m, rest, kr, er);
            assert(Seq::new(1, |i: int| !m) =~= seq![!m]);
            assert(ends_after(open, lines, q, tag, d) =~= Seq::new(0, |i: int| false) + seq![true]
                + er);
            lemma_select_concat(seq![line], seq![!m], rest, kr);
            assert(select_lines(seq![line], seq![!m]) =~= unit_kept(seq![line], m)) by {
                let one = seq![line];
                let f = seq![!m];
                assert(one.drop_first().len() == 0);
                assert(select_lines(one.drop_first(), f.drop_first()) == Seq::<Seq<char>>::empty());
                assert(one[0] == line && f[0] == !m);
                assert(select_lines(one, f) == (if f[0] {
                    seq![one[0]]
                } else {
                    seq![]
                }) + select_lines(one.drop_first(), f.drop_first()));
            }
            assert(keep_statements(lines, kept, open, mentioned, q, tag, d) == keep_statements(
                rest,
                k2,
                seq![],
                false,
                Quote::Plain,
                seq![],
                0,
            ));
            assert forall|j: int| 0 <= j < all.len() && !keep[j] implies #[trigger] drop_has_cause(
                all,
                keep,
                j,
            ) by {
                if j == 0 {
                    assert(mentions_migrations_table(all[0]));
                    assert(dropped_between(keep, 0, 0));
                } else {
                    assert(kr[j - 1] == keep[j]);
                    assert(all[j] == rest[j - 1]);
                    assert(drop_has_cause(rest, kr, j - 1));
                    let k = choose|k: int|
                        0 <= k < rest.len() && #[trigger] mentions_migrations_table(rest[k])
                            && dropped_between(kr, j - 1, k);
                    assert(mentions_migrations_table(all[k + 1]));
                    assert forall|x: int| ((j <= x <= k + 1) || (k + 1 <= x <= j)) implies !#[trigger] keep[x] by {
                        assert(keep[x] == kr[x - 1]);
                    }
                    assert(dropped_between(keep, j, k + 1));
                }
            }
            keep
        } else if ends_statement(line) && st.0 == Quote::Plain && st.2 == 0 {
            let u = open.push(line);
            let big = mentioned || m;
            assert(big == some_mention(u)) by {
                if mentioned {
                    let k = choose|k: int| 0 <= k < open.len() && #[trigger] mentions_migrations_table(
                        open[k],
                    );
                    assert(u[k] == open[k]);
                }
                if m {
                    assert(u[open.len() as int] == line);
                }
                if some_mention(u) {
                    let k = choose|k: int| 0 <= k < u.len() && #[trigger] mentions_migrations_table(
                        u[k],
                    );
                    if k < open.len() {
                        assert(u[k] == open[k]);
                    }
                }
            }
            let k2 = kept + unit_kept(u, big);
            assert(!some_mention(Seq::<Seq<char>>::empty()));
            let kr = lemma_keep_statements_flags(rest, k2, seq![], false, Quote::Plain, seq![], 0);
            assert(Seq::<Seq<char>>::empty() + rest =~= rest);
            let ku = Seq::new(u.len(), |i: int| !big);
            let keep = ku + kr;
            let all = open + lines;
            assert(all =~= u + rest);
            let er = unit_ends(rest, false, Quote::Plain, seq![], 0);
            assert(ends_after(Seq::<Seq<char>>::empty(), rest, Quote::Plain, seq![], 0) =~= er);
            lemma_units_close(u, big, rest, kr, er);
            assert(ends_after(open, lines, q, tag, d) =~= Seq::new((u.len() - 1) as nat, |i: int| false)
                + seq![true] + er);
            lemma_select_concat(u, ku, rest, kr);
            lemma_select_uniform(u, !big);
            assert(keep_statements(lines, kept, open, mentioned, q, tag, d) == keep_statements(
                rest,
                k2,
                seq![],
                false,
                Quote::Plain,
                seq![],
                0,
            ));
            assert(select_lines(u, ku) =~= unit_kept(u, big));
            assert(k2 + select_lines(rest, kr) =~= kept + select_lines(all, keep));
            assert forall|j: int| 0 <= j < all.len() && !keep[j] implies #[trigger] drop_has_cause(
                all,
                keep,
                j,
            ) by {
                if j < u.len() {
                    let k = choose|k: int| 0 <= k < u.len() && #[trigger] mentions_migrations_table(
                        u[k],
                    );
                    assert(all[k] == u[k]);
                    assert forall|x: int| ((j <= x <= k) || (k <= x <= j)) implies !#[trigger] keep[x] by {
                        assert(keep[x] == ku[x]);
                    }
                    assert(dropped_between(keep, j, k));
                } else {
                    let ul = u.len() as int;
                    assert(kr[j - ul] == keep[j]);
                    assert(all[j] == rest[j - ul]);
                    assert(drop_has_cause(rest, kr, j - ul));
                    let k = choose|k: int|
                        0 <= k < rest.len() && #[trigger] mentions_migrations_table(rest[k])
                            && dropped_between(kr, j - ul, k);
                    assert(mentions_migrations_table(all[k + ul]));
                    assert forall|x: int| ((j <= x <= k + ul) || (k + ul <= x <= j)) implies !#[trigger] keep[x] by {
                        assert(keep[x] == kr[x - ul]);
                    }
                    assert(dropped_between(keep, j, k + ul));
                }
            }
            keep
        } else {
            let u = open.push(line);
            let big = mentioned || m;
            assert(big == some_mention(u)) by {
                if mentioned {
                    let k = choose|k: int| 0 <= k < open.len() && #[trigger] mentions_migrations_table(
                        open[k],
                    );
                    assert(u[k] == open[k]);
                }
                if m {
                    assert(u[open.len() as int] == line);
                }
                if some_mention(u) {
                    let k = choose|k: int| 0 <= k < u.len() && #[trigger] mentions_migrations_table(
                        u[k],
                    );
                    if k < open.len() {
                        assert(u[k] == open[k]);
                    }
                }
            }
            let keep = lemma_keep_statements_flags(rest, kept, u, big, st.0, st.1, st.2);
            assert(u + rest =~= open + lines);
            assert(ends_after(open, lines, q, tag, d) =~= ends_after(u, rest, st.0, st.1, st.2));
            assert(keep_statements(lines, kept, open, mentioned, q, tag, d) == keep_statements(
                rest,
                kept,
                u,
                big,
                st.0,
                st.1,
                st.2,
            ));
            keep
        }
    }
}

/// `keep` flags the lines of `s` that the filter keeps: the result is those
/// lines joined with `'\n'`, units are kept or dropped whole, every line that
/// mentions the migrations table is dropped, and every dropped line lies in a
/// unit with such a line, joined to it through dropped lines.
pub open spec fn filter_flags(s: Seq<char>, keep: Seq<bool>) -> bool {
    let lines = text_lines(s, 0);
    let ends = unit_ends(lines, false, Quote::Plain, seq![], 0);
    &&& keep.len() == lines.len()
    &&& ends.len() == lines.len()
    &&& filtered_dump(s) == join_lines(select_lines(lines, keep))
    &&& units_whole(ends, keep)
    &&& mentions_dropped(lines, keep)
    &&& drops_in_units(lines, ends, keep)
    &&& drops_explained(lines, keep)
}

/// The filter drops nothing without cause: its result is the dump's lines with
/// some dropped, joined with `'\n'`. The dump is read as units (a blank or
/// `--` comment line outside a statement, or a statement up to the line whose
/// content ends with `;` outside quotes and `BEGIN`/`CASE` blocks); each unit
/// is kept or dropped whole, every line that mentions `_sqlx_migrations` (in
/// any ASCII case) is dropped, and every dropped line lies in a unit with such
/// a line, to which it is also joined through dropped lines only.
pub proof fn lemma_filter_drops_only_for_the_table(s: Seq<char>)
    ensures
        exists|keep: Seq<bool>| #[trigger] filter_flags(s, keep),
{
    let lines = text_lines(s, 0);
    assert(!some_mention(Seq::<Seq<char>>::empty()));
    let keep = lemma_keep_statements_flags(lines, seq![], seq![], false, Quote::Plain, seq![], 0);
    assert(ends_after(Seq::<Seq<char>>::empty(), lines, Quote::Plain, seq![], 0) =~= unit_ends(
        lines,
        false,
        Quote::Plain,
        seq![],
        0,
    ));
    assert(Seq::<Seq<char>>::empty() + lines =~= lines);
    assert(Seq::<Seq<char>>::empty() + select_lines(lines, keep) =~= select_lines(lines, keep));
    assert(filter_flags(s, keep));
}

/// When no line of the dump mentions `_sqlx_migrations`, the filter keeps
/// every line: the result is the dump's lines joined with `'\n'`.
pub proof fn lemma_filter_keeps_clean_dump(s: Seq<char>)
    requires
        forall|j: int|
            0 <= j < text_lines(s, 0).len() ==> !mentions_migrations_table(
                #[trigger] text_lines(s, 0)[j],
            ),
    ensures
        filtered_dump(s) == join_lines(text_lines(s, 0)),
{
    let lines = text_lines(s, 0);
    lemma_filter_drops_only_for_the_table(s);
    let keep = choose|keep: Seq<bool>| filter_flags(s, keep);
    assert forall|j: int| 0 <= j < keep.len() implies #[trigger] keep[j] by {
        if !keep[j] {
            assert(drop_has_cause(lines, keep, j));
        }
    }
    assert(keep =~= Seq::new(lines.len(), |i: int| true));
    lemma_select_uniform(lines, true);
}

} // verus!
