use vstd::prelude::*;

use crate::sql_scan::{scan, scan_line, BlockWords, Quote};
use crate::squash::ascii_lower;
use crate::text::{
    chars_of, copy_range, find_char, find_in, lemma_find_in_bounds, push_char, skip_ws_in,
    trim_back, trim_end_index, trim_range, trim_start_index,
};

verus! {

/// The name of the table in which applied migrations are recorded.
pub open spec fn migrations_table() -> Seq<char> {
    "_sqlx_migrations"@
}

/// The end of the line that starts at `i` and ends at the newline `e` (or
/// at the end of the text): a `'\r'` just before a newline is not part of it.
pub open spec fn line_end(s: Seq<char>, i: int, e: int) -> int {
    if e < s.len() && e > i && s[e - 1] == '\r' {
        e - 1
    } else {
        e
    }
}

/// The lines of `s[i..]`, as `str::lines` gives them: split at `'\n'` or
/// `"\r\n"`, with no empty last line after a final line ending.
pub open spec fn text_lines(s: Seq<char>, i: int) -> Seq<Seq<char>>
    decreases s.len() - i,
{
    if i < 0 || i >= s.len() {
        seq![]
    } else {
        let e = find_in(s, i, s.len() as int, '\n');
        let line = s.subrange(i, line_end(s, i, e));
        if e >= s.len() {
            seq![line]
        } else {
            proof {
                lemma_find_in_bounds(s, i, s.len() as int, '\n');
            }
            seq![line] + text_lines(s, e + 1)
        }
    }
}

/// Whether `pat` occurs in `s` at some position.
pub open spec fn contains_seq(s: Seq<char>, pat: Seq<char>) -> bool {
    exists|k: int| 0 <= k <= s.len() - pat.len() && #[trigger] s.subrange(k, k + pat.len()) == pat
}

/// ASCII lowercasing of a text.
pub open spec fn lowercase(s: Seq<char>) -> Seq<char> {
    s.map_values(|c: char| ascii_lower(c))
}

/// Whether a line mentions the migrations table, in any ASCII case.
pub open spec fn mentions_migrations_table(line: Seq<char>) -> bool {
    contains_seq(lowercase(line), migrations_table())
}

/// Whether a line stands on its own when no statement is open: it is blank,
/// or a `--` comment.
pub open spec fn is_standalone_line(line: Seq<char>) -> bool {
    let a = skip_ws_in(line, 0, line.len() as int);
    a == line.len() || (a + 1 < line.len() && line[a] == '-' && line[a + 1] == '-')
}

/// Whether a line ends a statement: its content, trimmed at the end, ends with `;`.
pub open spec fn ends_statement(line: Seq<char>) -> bool {
    let z = trim_back(line, 0, line.len() as int);
    z > 0 && line[z - 1] == ';'
}

/// The lines of a unit of the dump, unless the unit mentions the table.
pub open spec fn unit_kept(unit: Seq<Seq<char>>, mentioned: bool) -> Seq<Seq<char>> {
    if mentioned {
        seq![]
    } else {
        unit
    }
}

/// Reads `lines` as units and keeps those that do not mention the migrations
/// table. `kept` holds the lines kept so far; `open` holds the lines of the
/// statement read so far, `mentioned` whether one of them mentions the table,
/// and `(q, tag, d)` what it leaves open: a quote, and a depth of
/// `BEGIN`/`CASE` ... `END` blocks.
///
/// A blank or `--` comment line read while no statement is open is a unit of
/// its own. Any other line belongs to the open statement, which ends with the
/// first line whose content ends with `;` and that leaves no quote and no
/// block open (or with the last line). A unit that mentions the table, in any
/// ASCII case, is dropped whole.
pub open spec fn keep_statements(
    lines: Seq<Seq<char>>,
    kept: Seq<Seq<char>>,
    open: Seq<Seq<char>>,
    mentioned: bool,
    q: Quote,
    tag: Seq<char>,
    d: nat,
) -> Seq<Seq<char>>
    decreases lines.len(),
{
    if lines.len() == 0 {
        kept + unit_kept(open, mentioned)
    } else {
        let line = lines[0];
        let rest = lines.drop_first();
        let m = mentions_migrations_table(line);
        if open.len() == 0 && is_standalone_line(line) {
            keep_statements(
                rest,
                kept + unit_kept(seq![line], m),
                seq![],
                false,
                Quote::Plain,
                seq![],
                0,
            )
        } else {
            let st = scan(line, 0, q, tag, d);
            if ends_statement(line) && st.0 == Quote::Plain && st.2 == 0 {
                keep_statements(
                    rest,
                    kept + unit_kept(open.push(line), mentioned || m),
                    seq![],
                    false,
                    Quote::Plain,
                    seq![],
                    0,
                )
            } else {
                keep_statements(rest, kept, open.push(line), mentioned || m, st.0, st.1, st.2)
            }
        }
    }
}

/// Lines joined with `'\n'` between them.
pub open spec fn join_lines(lines: Seq<Seq<char>>) -> Seq<char>
    decreases lines.len(),
{
    if lines.len() == 0 {
        seq![]
    } else if lines.len() == 1 {
        lines[0]
    } else {
        lines[0] + seq!['\n'] + join_lines(lines.drop_first())
    }
}

/// What `filter_sqlx_migrations_statements` gives for `s`: the lines of the
/// units that do not mention the migrations table, joined with `'\n'`.
pub open spec fn filtered_dump(s: Seq<char>) -> Seq<char> {
    join_lines(keep_statements(text_lines(s, 0), seq![], seq![], false, Quote::Plain, seq![], 0))
}

/// Appending a line to lines joined with `'\n'`.
proof fn lemma_join_lines_push(lines: Seq<Seq<char>>, x: Seq<char>)
    ensures
        join_lines(lines.push(x)) == if lines.len() == 0 {
            x
        } else {
            join_lines(lines) + seq!['\n'] + x
        },
    decreases lines.len(),
{
    if lines.len() == 1 {
        assert(lines.push(x).drop_first() =~= seq![x]);
        assert(join_lines(seq![x]) == x);
    } else if lines.len() > 1 {
        assert(lines.push(x).drop_first() =~= lines.drop_first().push(x));
        lemma_join_lines_push(lines.drop_first(), x);
    }
}

/// The table name holds no line break.
proof fn lemma_migrations_table_one_line()
    ensures
        migrations_table().len() == 16,
        forall|t: int| 0 <= t < 16 ==> #[trigger] migrations_table()[t] != '\n',
{
    reveal_strlit("_sqlx_migrations");
}

/// No line of a kept unit mentions the migrations table.
proof fn lemma_keep_statements_clean(
    lines: Seq<Seq<char>>,
    kept: Seq<Seq<char>>,
    open: Seq<Seq<char>>,
    mentioned: bool,
    q: Quote,
    tag: Seq<char>,
    d: nat,
)
    requires
        forall|j: int| 0 <= j < kept.len() ==> !mentions_migrations_table(#[trigger] kept[j]),
        !mentioned ==> forall|j: int|
            0 <= j < open.len() ==> !mentions_migrations_table(#[trigger] open[j]),
    ensures
        forall|j: int|
            0 <= j < keep_statements(lines, kept, open, mentioned, q, tag, d).len()
                ==> !mentions_migrations_table(
                #[trigger] keep_statements(lines, kept, open, mentioned, q, tag, d)[j],
            ),
    decreases lines.len(),
{
    if lines.len() == 0 {
        let r = kept + unit_kept(open, mentioned);
        assert forall|j: int| 0 <= j < r.len() implies !mentions_migrations_table(#[trigger] r[j]) by {
            if j >= kept.len() {
                assert(r[j] == open[j - kept.len()]);
            }
        }
    } else {
        let line = lines[0];
        let rest = lines.drop_first();
        let m = mentions_migrations_table(line);
        let st = scan(line, 0, q, tag, d);
        if open.len() == 0 && is_standalone_line(line) {
            let k2 = kept + unit_kept(seq![line], m);
            assert forall|j: int| 0 <= j < k2.len() implies !mentions_migrations_table(
                #[trigger] k2[j],
            ) by {
                if j >= kept.len() {
                    assert(k2[j] == line);
                }
            }
            lemma_keep_statements_clean(rest, k2, seq![], false, Quote::Plain, seq![], 0);
            assert(keep_statements(lines, kept, open, mentioned, q, tag, d) == keep_statements(
                rest,
                k2,
                seq![],
                false,
                Quote::Plain,
                seq![],
                0,
            ));
        } else if ends_statement(line) && st.0 == Quote::Plain && st.2 == 0 {
            let u = open.push(line);
            let k2 = kept + unit_kept(u, mentioned || m);
            assert forall|j: int| 0 <= j < k2.len() implies !mentions_migrations_table(
                #[trigger] k2[j],
            ) by {
                if j >= kept.len() {
                    assert(k2[j] == u[j - kept.len()]);
                }
            }
            lemma_keep_statements_clean(rest, k2, seq![], false, Quote::Plain, seq![], 0);
            assert(keep_statements(lines, kept, open, mentioned, q, tag, d) == keep_statements(
                rest,
                k2,
                seq![],
                false,
                Quote::Plain,
                seq![],
                0,
            ));
        } else {
            let u = open.push(line);
            assert(!(mentioned || m) ==> forall|j: int|
                0 <= j < u.len() ==> !mentions_migrations_table(#[trigger] u[j])) by {
                if !(mentioned || m) {
                    assert forall|j: int| 0 <= j < u.len() implies !mentions_migrations_table(
                        #[trigger] u[j],
                    ) by {
                        if j < open.len() {
                            assert(u[j] == open[j]);
                        }
                    }
                }
            }
            lemma_keep_statements_clean(rest, kept, u, mentioned || m, st.0, st.1, st.2);
            assert(keep_statements(lines, kept, open, mentioned, q, tag, d) == keep_statements(
                rest,
                kept,
                u,
                mentioned || m,
                st.0,
                st.1,
                st.2,
            ));
        }
    }
}

/// Joining lines that do not mention the table with `'\n'` cannot make a
/// mention: the name holds no line break.
proof fn lemma_join_lines_clean(lines: Seq<Seq<char>>)
    requires
        forall|j: int| 0 <= j < lines.len() ==> !mentions_migrations_table(#[trigger] lines[j]),
    ensures
        !mentions_migrations_table(join_lines(lines)),
    decreases lines.len(),
{
    lemma_migrations_table_one_line();
    let pat = migrations_table();
    if lines.len() == 1 {
        assert(!mentions_migrations_table(lines[0]));
    } else if lines.len() > 1 {
        let l = lines[0];
        let rest = lines.drop_first();
        assert forall|j: int| 0 <= j < rest.len() implies !mentions_migrations_table(
            #[trigger] rest[j],
        ) by {
            assert(rest[j] == lines[j + 1]);
        }
        lemma_join_lines_clean(rest);
        let jr = join_lines(rest);
        let whole = lowercase(join_lines(lines));
        assert(join_lines(lines) == l + seq!['\n'] + jr);
        assert(whole =~= lowercase(l) + seq!['\n'] + lowercase(jr));
        if contains_seq(whole, pat) {
            let k = choose|k: int|
                0 <= k <= whole.len() - pat.len() && #[trigger] whole.subrange(k, k + pat.len())
                    == pat;
            let ll = l.len() as int;
            if k + 16 <= ll {
                assert(lowercase(l).subrange(k, k + 16) =~= whole.subrange(k, k + 16));
                assert(mentions_migrations_table(l));
                assert(!mentions_migrations_table(lines[0]));
            } else if k > ll {
                assert(lowercase(jr).subrange(k - ll - 1, k - ll - 1 + 16) =~= whole.subrange(
                    k,
                    k + 16,
                ));
                assert(contains_seq(lowercase(jr), pat));
            } else {
                assert(whole[ll] == '\n');
                assert(whole.subrange(k, k + 16)[ll - k] == whole[ll]);
                assert(pat[ll - k] != '\n');
            }
        }
    }
}

/// The filtered dump never mentions the migrations table, in any ASCII case:
/// every unit with a line that did is dropped, and joining the rest cannot
/// form the name.
pub proof fn lemma_filtered_dump_never_mentions_table(s: Seq<char>)
    ensures
        !mentions_migrations_table(filtered_dump(s)),
{
    lemma_keep_statements_clean(text_lines(s, 0), seq![], seq![], false, Quote::Plain, seq![], 0);
    lemma_join_lines_clean(
        keep_statements(text_lines(s, 0), seq![], seq![], false, Quote::Plain, seq![], 0),
    );
}

/// Whether `s[k..k + pat.len())`, lowercased, is `pat`.
pub(crate) fn lower_match_at(s: &Vec<char>, k: usize, pat: &Vec<char>) -> (b: bool)
    requires
        k + pat@.len() <= s@.len(),
    ensures
        b == (lowercase(s@.subrange(k as int, k + pat@.len())) == pat@),
{
    let n = pat.len();
    let sl = s.len();
    let mut j: usize = 0;
    while j < n
        invariant
            n == pat@.len(),
            sl == s@.len(),
            k + n <= s@.len(),
            j <= n,
            forall|t: int| 0 <= t < j ==> ascii_lower(#[trigger] s@[k + t]) == pat@[t],
        decreases n - j,
    {
        let c = s[k + j];
        let lower = if 'A' <= c && c <= 'Z' {
            ((c as u32) + 32) as u8 as char
        } else {
            c
        };
        assert(lower == ascii_lower(c));
        if lower != pat[j] {
            assert(lowercase(s@.subrange(k as int, k + n))[j as int] != pat@[j as int]);
            return false;
        }
        j += 1;
    }
    assert forall|t: int| 0 <= t < n implies lowercase(s@.subrange(k as int, k + n))[t]
        == pat@[t] by {
        assert(ascii_lower(s@[k + t]) == pat@[t]);
    }
    assert(lowercase(s@.subrange(k as int, k + n)) =~= pat@);
    true
}

/// Whether `s[lo..hi)`, lowercased, contains `pat`.
fn range_mentions(s: &Vec<char>, lo: usize, hi: usize, pat: &Vec<char>) -> (b: bool)
    requires
        lo <= hi <= s@.len(),
    ensures
        b == contains_seq(lowercase(s@.subrange(lo as int, hi as int)), pat@),
{
    let ghost line = lowercase(s@.subrange(lo as int, hi as int));
    let n = pat.len();
    if hi - lo < n {
        return false;
    }
    let last = hi - n;
    let mut k = lo;
    loop
        invariant
            lo <= k <= last,
            last + n == hi,
            n == pat@.len(),
            hi <= s@.len(),
            line == lowercase(s@.subrange(lo as int, hi as int)),
            forall|t: int| 0 <= t < k - lo ==> #[trigger] line.subrange(t, t + n) != pat@,
        decreases last - k,
    {
        let m = lower_match_at(s, k, pat);
        assert(line.subrange(k - lo, k - lo + n) =~= lowercase(s@.subrange(k as int, k + n)));
        if m {
            return true;
        }
        if k == last {
            return false;
        }
        k += 1;
    }
}

/// The lines of a dump that the ranges `v` of `s` delimit.
spec fn ranges_view(s: Seq<char>, v: Seq<(usize, usize)>) -> Seq<Seq<char>> {
    v.map_values(|r: (usize, usize)| s.subrange(r.0 as int, r.1 as int))
}

/// Every range of `v` lies within `0..n`.
spec fn ranges_within(v: Seq<(usize, usize)>, n: int) -> bool {
    forall|k: int| 0 <= k < v.len() ==> #[trigger] v[k].0 <= v[k].1 <= n
}

/// Whether a line is blank or a `--` comment.
fn is_standalone(line: &Vec<char>) -> (b: bool)
    ensures
        b == is_standalone_line(line@),
{
    let n = line.len();
    let a = trim_start_index(line, 0, n);
    a == n || (a + 1 < n && line[a] == '-' && line[a + 1] == '-')
}

/// Whether a line's content ends with `;`.
fn line_ends_statement(line: &Vec<char>) -> (b: bool)
    ensures
        b == ends_statement(line@),
{
    let n = line.len();
    let z = trim_end_index(line, 0, n);
    z > 0 && line[z - 1] == ';'
}

/// Drop CREATE/DROP statements that still mention `_sqlx_migrations` (belt and suspenders).
///
/// The dump is read line by line. A blank or `--` comment line outside a
/// statement stands alone; other lines gather into a statement that ends with
/// the first line whose content ends with `;` outside any quote (`'...'`,
/// `"..."`, `$tag$...$tag$`) and any `BEGIN`/`CASE` ... `END` block (or with
/// the dump). Every such unit that mentions the table, in any ASCII case, is
/// dropped whole; the lines of the others are joined with `'\n'`.
pub fn filter_sqlx_migrations_statements(dump: &str) -> (r: String)
    ensures
        r@ == filtered_dump(dump@),
        !mentions_migrations_table(r@),
{
    proof {
        lemma_filtered_dump_never_mentions_table(dump@);
    }
    let s = chars_of(dump);
    let pat = chars_of("_sqlx_migrations");
    let n = s.len();
    let mut kept: Vec<(usize, usize)> = Vec::new();
    let mut open: Vec<(usize, usize)> = Vec::new();
    let mut mentioned = false;
    let mut q = Quote::Plain;
    let mut tag: Vec<char> = Vec::new();
    let mut depth: usize = 0;
    let words = BlockWords::new();
    let mut i: usize = 0;
    assert(ranges_view(s@, kept@) =~= Seq::<Seq<char>>::empty());
    assert(ranges_view(s@, open@) =~= Seq::<Seq<char>>::empty());
    while i < n
        invariant
            n == s@.len(),
            s@ == dump@,
            pat@ == migrations_table(),
            i <= n,
            ranges_within(kept@, n as int),
            ranges_within(open@, n as int),
            open@.len() == 0 ==> (!mentioned && q == Quote::Plain && tag@ == Seq::<char>::empty()
                && depth == 0),
            depth <= i,
            words.wf(),
            keep_statements(text_lines(s@, 0), seq![], seq![], false, Quote::Plain, seq![], 0)
                == keep_statements(
                text_lines(s@, i as int),
                ranges_view(s@, kept@),
                ranges_view(s@, open@),
                mentioned,
                q,
                tag@,
                depth as nat,
            ),
        decreases n - i,
    {
        let e = find_char(&s, i, n, '\n');
        let end = if e < n && e > i && s[e - 1] == '\r' {
            e - 1
        } else {
            e
        };
        let ghost line = s@.subrange(i as int, end as int);
        let ghost rest = if e < n {
            text_lines(s@, e + 1)
        } else {
            seq![]
        };
        let ghost kv = ranges_view(s@, kept@);
        let ghost ov = ranges_view(s@, open@);
        assert(text_lines(s@, i as int) =~= seq![line] + rest);
        assert((seq![line] + rest).drop_first() =~= rest);
        assert((seq![line] + rest)[0] == line);
        let m = range_mentions(&s, i, end, &pat);
        let lc = copy_range(&s, i, end);
        if open.len() == 0 && is_standalone(&lc) {
            if !m {
                kept.push((i, end));
            }
            assert(ranges_view(s@, kept@) =~= kv + unit_kept(seq![line], m));
            assert(ranges_view(s@, open@) =~= Seq::<Seq<char>>::empty());
        } else {
            let (q2, tag2, d2) = scan_line(&lc, q, tag, depth, &words);
            let plain = match q2 {
                Quote::Plain => true,
                _ => false,
            };
            if line_ends_statement(&lc) && plain && d2 == 0 {
                open.push((i, end));
                assert(ranges_view(s@, open@) =~= ov.push(line));
                if !(mentioned || m) {
                    let ghost ov2 = ranges_view(s@, open@);
                    kept.append(&mut open);
                    assert(ranges_view(s@, kept@) =~= kv + ov2);
                } else {
                    open.clear();
                    assert(ranges_view(s@, kept@) =~= kv + unit_kept(ov.push(line), true));
                }
                assert(ranges_view(s@, open@) =~= Seq::<Seq<char>>::empty());
                mentioned = false;
                q = Quote::Plain;
                tag = Vec::new();
                depth = 0;
                assert(tag@ =~= Seq::<char>::empty());
            } else {
                open.push((i, end));
                assert(ranges_view(s@, open@) =~= ov.push(line));
                mentioned = mentioned || m;
                q = q2;
                tag = tag2;
                depth = d2;
            }
        }
        if e >= n {
            assert(text_lines(s@, n as int) =~= Seq::<Seq<char>>::empty());
            i = n;
        } else {
            i = e + 1;
        }
    }
    let ghost kv = ranges_view(s@, kept@);
    let ghost ov = ranges_view(s@, open@);
    if !mentioned {
        kept.append(&mut open);
    }
    assert(ranges_view(s@, kept@) =~= kv + unit_kept(ov, mentioned));
    assert(text_lines(s@, n as int) =~= Seq::<Seq<char>>::empty());
    let ghost result = ranges_view(s@, kept@);
    let mut out = String::new();
    let k = kept.len();
    for j in 0..k
        invariant
            k == kept@.len(),
            n == s@.len(),
            ranges_within(kept@, n as int),
            result == ranges_view(s@, kept@),
            out@ == join_lines(result.take(j as int)),
    {
        let (a, b) = kept[j];
        let ghost prev = result.take(j as int);
        if j > 0 {
            push_char(&mut out, '\n');
        }
        push_range(&mut out, &s, a, b);
        proof {
            assert(result.take(j + 1) =~= prev.push(s@.subrange(a as int, b as int)));
            lemma_join_lines_push(prev, s@.subrange(a as int, b as int));
        }
    }
    assert(result.take(k as int) =~= result);
    out
}

/// A `sqlite_master` statement as it appears in the dump: dropped when it
/// names the migrations table (case-sensitively); otherwise trimmed, given a
/// `;` when it does not already end with one, and ended with a newline.
pub open spec fn sqlite_statement_piece(t: Seq<char>) -> Seq<char> {
    if contains_seq(t, migrations_table()) {
        seq![]
    } else {
        let a = skip_ws_in(t, 0, t.len() as int);
        let b = trim_back(t, a, t.len() as int);
        let z = trim_back(t, 0, t.len() as int);
        t.subrange(a, b) + (if z > 0 && t[z - 1] == ';' {
            seq![]
        } else {
            seq![';']
        }) + seq!['\n']
    }
}

/// The SQLite schema dump made of the statements `stmts`, in order.
pub open spec fn sqlite_schema(stmts: Seq<Seq<char>>) -> Seq<char>
    decreases stmts.len(),
{
    if stmts.len() == 0 {
        seq![]
    } else {
        sqlite_schema(stmts.drop_last()) + sqlite_statement_piece(stmts.last())
    }
}

/// The views of a list of strings.
pub open spec fn strings_view(v: Seq<String>) -> Seq<Seq<char>> {
    v.map_values(|x: String| x@)
}

/// Whether `s[lo..hi)` contains `pat` (case-sensitively).
fn range_contains(s: &Vec<char>, lo: usize, hi: usize, pat: &Vec<char>) -> (b: bool)
    requires
        lo <= hi <= s@.len(),
    ensures
        b == contains_seq(s@.subrange(lo as int, hi as int), pat@),
{
    let ghost t = s@.subrange(lo as int, hi as int);
    let n = pat.len();
    if hi - lo < n {
        return false;
    }
    let last = hi - n;
    let mut k = lo;
    loop
        invariant
            lo <= k <= last,
            last + n == hi,
            n == pat@.len(),
            hi <= s@.len(),
            t == s@.subrange(lo as int, hi as int),
            forall|x: int| 0 <= x < k - lo ==> #[trigger] t.subrange(x, x + n) != pat@,
        decreases last - k,
    {
        let mut j: usize = 0;
        let mut same = true;
        while j < n
            invariant
                n == pat@.len(),
                k + n <= hi <= s@.len(),
                j <= n,
                same ==> forall|y: int| 0 <= y < j ==> s@[k + y] == pat@[y],
                !same ==> t.subrange(k - lo, k - lo + n) != pat@,
                t == s@.subrange(lo as int, hi as int),
                lo <= k,
            decreases n - j,
        {
            if same && s[k + j] != pat[j] {
                assert(t.subrange(k - lo, k - lo + n)[j as int] == s@[k + j]);
                same = false;
            }
            j += 1;
        }
        if same {
            assert(t.subrange(k - lo, k - lo + n) =~= pat@);
            return true;
        }
        if k == last {
            return false;
        }
        k += 1;
    }
}

/// Appends `s[lo..hi)` to `out`.
fn push_range(out: &mut String, s: &Vec<char>, lo: usize, hi: usize)
    requires
        lo <= hi <= s@.len(),
    ensures
        final(out)@ == old(out)@ + s@.subrange(lo as int, hi as int),
{
    let ghost start = out@;
    let mut k = lo;
    while k < hi
        invariant
            lo <= k <= hi <= s@.len(),
            out@ == start + s@.subrange(lo as int, k as int),
        decreases hi - k,
    {
        push_char(out, s[k]);
        assert(s@.subrange(lo as int, k + 1) =~= s@.subrange(lo as int, k as int).push(s@[k as int]));
        k += 1;
    }
}

/// Renders the SQL of `sqlite_master` rows as a schema dump: statements that
/// mention `_sqlx_migrations` are skipped; the others are trimmed, ended with
/// `;` when they lack one, and put one per line.
pub fn render_sqlite_schema(statements: &[String]) -> (out: String)
    ensures
        out@ == sqlite_schema(strings_view(statements@)),
{
    let pat = chars_of("_sqlx_migrations");
    let mut out = String::new();
    let n = statements.len();
    for i in 0..n
        invariant
            n == statements@.len(),
            pat@ == migrations_table(),
            out@ == sqlite_schema(strings_view(statements@).take(i as int)),
    {
        let ghost before = out@;
        let t = chars_of(statements[i].as_str());
        let len = t.len();
        if !range_contains(&t, 0, len, &pat) {
            let (a, b) = trim_range(&t, 0, len);
            push_range(&mut out, &t, a, b);
            let z = trim_end_index(&t, 0, len);
            if !(z > 0 && t[z - 1] == ';') {
                push_char(&mut out, ';');
            }
            push_char(&mut out, '\n');
        }
        proof {
            let prefix = strings_view(statements@).take(i + 1);
            assert(prefix.drop_last() =~= strings_view(statements@).take(i as int));
            assert(prefix.last() == statements@[i as int]@);
            assert(t@.subrange(0, len as int) =~= t@);
            assert(out@ =~= before + sqlite_statement_piece(t@));
        }
    }
    proof {
        assert(strings_view(statements@).take(n as int) =~= strings_view(statements@));
    }
    out
}

} // verus!
