use vstd::prelude::*;
use vstd::utf8::{encode_utf8, is_ascii_chars, is_ascii_chars_encode_utf8};

use crate::hex::{
    decoded_pair, hex_char, hex_decode, hex_digit_value, hex_encode, lemma_first_non_hex,
};
use crate::squash::{
    checksum_list, epoch_header, epoch_list_start, first_content_line, header_prefix, join_hex,
    keyword_at, keyword_char_at, squash_epoch,
};
use crate::text::{is_white_space, lemma_find_in, lemma_skip_ws_in, lemma_trim_back};

verus! {

/// A lowercase hexadecimal digit character.
pub open spec fn is_lower_hex_char(c: char) -> bool {
    ('0' <= c <= '9') || ('a' <= c <= 'f')
}

/// Each nibble's digit is a lowercase hex character whose byte decodes back to it.
pub proof fn lemma_hex_char(n: u8)
    requires
        n < 16,
    ensures
        is_lower_hex_char(hex_char(n)),
        hex_digit_value(hex_char(n) as u8) == Some(n),
{
}

/// The hex encoding is made of lowercase hex characters.
pub proof fn lemma_hex_encode_chars(x: Seq<u8>)
    ensures
        hex_encode(x).len() == 2 * x.len(),
        forall|k: int| 0 <= k < hex_encode(x).len() ==> is_lower_hex_char(#[trigger] hex_encode(x)[k]),
{
    assert forall|k: int| 0 <= k < hex_encode(x).len() implies is_lower_hex_char(
        #[trigger] hex_encode(x)[k],
    ) by {
        let byte = x[k / 2];
        assert(byte / 16 < 16);
        lemma_hex_char(byte / 16);
        lemma_hex_char(byte % 16);
    }
}

/// Decoding the UTF-8 bytes of a hex encoding gives back the bytes encoded.
pub proof fn lemma_hex_roundtrip(x: Seq<u8>)
    ensures
        hex_decode(encode_utf8(hex_encode(x))) == Ok::<Seq<u8>, crate::error::MigrateError>(x),
{
    let h = hex_encode(x);
    lemma_hex_encode_chars(x);
    assert(is_ascii_chars(h));
    is_ascii_chars_encode_utf8(h);
    let b = encode_utf8(h);
    assert(b.len() == 2 * x.len());
    assert forall|k: int| 0 <= k < b.len() implies hex_digit_value(#[trigger] b[k]) == Some(
        if k % 2 == 0 {
            x[k / 2] / 16
        } else {
            x[k / 2] % 16
        },
    ) by {
        assert(b[k] == h[k] as u8);
        lemma_hex_char(x[k / 2] / 16);
        lemma_hex_char(x[k / 2] % 16);
    }
    assert forall|k: int| 0 <= k < b.len() implies crate::hex::is_hex_digit(#[trigger] b[k]) by {
        assert(hex_digit_value(b[k]) is Some);
    }
    lemma_first_non_hex(b, 0, b.len() as int);
    assert forall|k: int| 0 <= k < x.len() implies #[trigger] decoded_pair(b, k) == x[k] by {
        assert((2 * k) % 2 == 0 && (2 * k) / 2 == k);
        assert((2 * k + 1) % 2 == 1 && (2 * k + 1) / 2 == k);
        assert(hex_digit_value(b[2 * k]) == Some(x[k] / 16));
        assert(hex_digit_value(b[2 * k + 1]) == Some(x[k] % 16));
    }
    assert(Seq::new(b.len() / 2, |k: int| decoded_pair(b, k)) =~= x);
}

/// The joined list is made of hex characters and commas, and starts and ends
/// with a hex character when every checksum is non-empty.
pub proof fn lemma_join_hex_chars(cs: Seq<Seq<u8>>)
    requires
        cs.len() > 0,
        forall|i: int| 0 <= i < cs.len() ==> (#[trigger] cs[i]).len() > 0,
    ensures
        join_hex(cs).len() >= 2,
        forall|k: int|
            0 <= k < join_hex(cs).len() ==> #[trigger] join_hex(cs)[k] == ','
                || is_lower_hex_char(join_hex(cs)[k]),
        is_lower_hex_char(join_hex(cs)[0]),
        is_lower_hex_char(join_hex(cs)[join_hex(cs).len() - 1]),
    decreases cs.len(),
{
    let x = cs[0];
    lemma_hex_encode_chars(x);
    if cs.len() > 1 {
        let rest = cs.drop_first();
        assert forall|i: int| 0 <= i < rest.len() implies (#[trigger] rest[i]).len() > 0 by {
            assert(rest[i] == cs[i + 1]);
        }
        lemma_join_hex_chars(rest);
        let j = join_hex(cs);
        let hx = hex_encode(x);
        let jr = join_hex(rest);
        assert(j == hx + seq![','] + jr);
        assert forall|k: int| 0 <= k < j.len() implies #[trigger] j[k] == ',' || is_lower_hex_char(
            j[k],
        ) by {
            if k < hx.len() {
                assert(j[k] == hx[k]);
            } else if k > hx.len() {
                assert(j[k] == jr[k - hx.len() - 1]);
            }
        }
        assert(j[j.len() - 1] == jr[jr.len() - 1]);
    }
}

/// The comma-separated list of hex checksums parses back to the checksums.
pub proof fn lemma_checksum_list_roundtrip(s: Seq<char>, i: int, b: int, cs: Seq<Seq<u8>>)
    requires
        0 <= i <= b <= s.len(),
        s.subrange(i, b) == join_hex(cs),
        cs.len() > 0,
        forall|j: int| 0 <= j < cs.len() ==> (#[trigger] cs[j]).len() > 0,
    ensures
        checksum_list(s, i, b) == Ok::<Seq<Seq<u8>>, crate::error::MigrateError>(cs),
    decreases cs.len(),
{
    let x = cs[0];
    let hx = hex_encode(x);
    let m = hx.len() as int;
    lemma_hex_encode_chars(x);
    lemma_join_hex_chars(cs);
    let e = i + m;
    assert forall|k: int| i <= k < e implies s[k] != ',' && is_lower_hex_char(s[k]) by {
        assert(s[k] == s.subrange(i, b)[k - i]);
        assert(join_hex(cs)[k - i] == hx[k - i]);
    }
    if cs.len() == 1 {
        assert(e == b);
    } else {
        let rest = cs.drop_first();
        assert(join_hex(cs) == hx + seq![','] + join_hex(rest));
        assert(s[e] == s.subrange(i, b)[m]);
    }
    lemma_find_in(s, i, b, ',', e);
    assert(!is_white_space(s[i]));
    lemma_skip_ws_in(s, i, e, i);
    assert(!is_white_space(s[e - 1]));
    lemma_trim_back(s, i, e, e);
    assert(s.subrange(i, e) =~= hx);
    lemma_hex_roundtrip(x);
    if cs.len() > 1 {
        let rest = cs.drop_first();
        assert forall|j: int| 0 <= j < rest.len() implies (#[trigger] rest[j]).len() > 0 by {
            assert(rest[j] == cs[j + 1]);
        }
        assert(s.subrange(e + 1, b) =~= join_hex(rest)) by {
            assert(join_hex(cs) == hx + seq![','] + join_hex(rest));
            assert forall|k: int| 0 <= k < b - (e + 1) implies s.subrange(e + 1, b)[k]
                == join_hex(rest)[k] by {
                assert(s[e + 1 + k] == s.subrange(i, b)[m + 1 + k]);
            }
        }
        lemma_checksum_list_roundtrip(s, e + 1, b, rest);
        assert(seq![x] + rest =~= cs);
    } else {
        assert(seq![x] =~= cs);
    }
}

/// Reading back a header: for a non-empty list of non-empty checksums, the
/// header line `format_squash_epoch_header` writes, followed by nothing or by
/// a newline and any text, is parsed by `parse_squash_epoch` into the same
/// checksums.
pub proof fn lemma_epoch_header_roundtrip(cs: Seq<Seq<u8>>, tail: Seq<char>)
    requires
        cs.len() > 0,
        forall|j: int| 0 <= j < cs.len() ==> (#[trigger] cs[j]).len() > 0,
        tail.len() == 0 || tail[0] == '\n',
    ensures
        squash_epoch(epoch_header(cs) + tail) == Ok::<
            Option<Seq<Seq<u8>>>,
            crate::error::MigrateError,
        >(Some(cs)),
{
    let h = epoch_header(cs);
    let s = h + tail;
    let hn = h.len() as int;
    let jn = join_hex(cs);
    lemma_join_hex_chars(cs);
    assert(hn == 16 + jn.len());
    assert forall|k: int| 0 <= k < hn implies s[k] != '\n' by {
        if k >= 16 {
            assert(s[k] == jn[k - 16]);
        }
    }
    lemma_find_in(s, 0, s.len() as int, '\n', hn);
    assert(s[0] == '-');
    lemma_skip_ws_in(s, 0, hn, 0);
    assert(s[hn - 1] == jn[jn.len() - 1]);
    lemma_trim_back(s, 0, hn, hn);
    assert(first_content_line(s, 0) == Some((0int, hn)));
    assert(s[1] == '-' && s[2] == ' ' && s[3] == 'S');
    lemma_skip_ws_in(s, 2, hn, 3);
    assert forall|k: int| 0 <= k < 12 implies #[trigger] keyword_char_at(s, 3, k) by {
        assert(s[3 + k] == header_prefix()[3 + k]);
    }
    assert(keyword_at(s, 3));
    assert(s[15] == ' ' && s[16] == jn[0]);
    lemma_skip_ws_in(s, 15, hn, 16);
    assert(epoch_list_start(s, 0, hn) == Some(16int));
    assert(s.subrange(16, hn) =~= jn);
    lemma_checksum_list_roundtrip(s, 16, hn, cs);
}

} // verus!
