use vstd::prelude::*;
use vstd::utf8::*;
use crate::str_split::{occurs_at, first_match_from, first_match, lemma_first_match_from};

verus! {

/// The index of the first `c` in `s`, if `c` occurs in it.
pub open spec fn first_index_of(s: Seq<char>, c: char) -> Option<int>
    decreases s.len(),
{
    if s.len() == 0 {
        None
    } else if s[0] == c {
        Some(0)
    } else {
        match first_index_of(s.drop_first(), c) {
            Some(k) => Some(k + 1),
            None => None,
        }
    }
}

/// Encoding a concatenation encodes each part in turn.
pub proof fn lemma_encode_utf8_concat(a: Seq<char>, b: Seq<char>)
    ensures
        encode_utf8(a + b) == encode_utf8(a) + encode_utf8(b),
    decreases a.len(),
{
    if a.len() == 0 {
        assert(a + b =~= b);
    } else {
        lemma_encode_utf8_concat(a.drop_first(), b);
        assert((a + b).drop_first() =~= a.drop_first() + b);
        assert(encode_utf8(a + b) =~= encode_utf8(a) + encode_utf8(b));
    }
}

/// Where `first_index_of` finds `c`, `c` is there and not before.
pub proof fn lemma_first_index_of(s: Seq<char>, c: char)
    ensures
        first_index_of(s, c) matches Some(k) ==> 0 <= k < s.len() && s[k] == c && (forall|j: int|
            0 <= j < k ==> s[j] != c),
        first_index_of(s, c) is None ==> forall|j: int| 0 <= j < s.len() ==> s[j] != c,
    decreases s.len(),
{
    if s.len() > 0 && s[0] != c {
        lemma_first_index_of(s.drop_first(), c);
        if let Some(k) = first_index_of(s, c) {
            assert forall|j: int| 0 <= j < k implies s[j] != c by {
                if j > 0 {
                    assert(s[j] == s.drop_first()[j - 1]);
                }
            }
        } else {
            assert forall|j: int| 0 <= j < s.len() implies s[j] != c by {
                if j > 0 {
                    assert(s[j] == s.drop_first()[j - 1]);
                }
            }
        }
    }
}

/// With no occurrence between `i` and `j`, the search from `i` finds what
/// the search from `j` finds.
proof fn lemma_skip_non_matches(hay: Seq<u8>, pat: Seq<u8>, i: int, j: int)
    requires
        0 <= i <= j,
        j + pat.len() <= hay.len() + 1,
        forall|q: int| i <= q < j ==> !occurs_at(hay, pat, q),
    ensures
        first_match_from(hay, pat, i) == first_match_from(hay, pat, j),
    decreases j - i,
{
    if i < j {
        lemma_skip_non_matches(hay, pat, i + 1, j);
    }
}

/// Searching behind a prefix is searching the rest, shifted by the prefix.
proof fn lemma_search_shift(pre: Seq<u8>, rest: Seq<u8>, pat: Seq<u8>, i: int)
    requires
        0 <= i,
    ensures
        first_match_from(pre + rest, pat, pre.len() + i) == match first_match_from(rest, pat, i) {
            Some(p) => Some(p + pre.len()),
            None => None,
        },
    decreases rest.len() + 1 - i,
{
    let hay = pre + rest;
    let k = pre.len() + i;
    if i + pat.len() > rest.len() {
    } else {
        assert(hay.subrange(k, k + pat.len()) =~= rest.subrange(i, i + pat.len()));
        if !occurs_at(rest, pat, i) {
            lemma_search_shift(pre, rest, pat, i + 1);
        }
    }
}

/// The encoding of a character differs from that of any other character in
/// its first scalar.
proof fn lemma_distinct_first_scalar(bytes: Seq<u8>, x: char, c: char)
    requires
        x != c,
        bytes.len() >= encode_scalar(x as u32).len(),
        bytes.subrange(0, encode_scalar(x as u32).len() as int) == encode_scalar(x as u32),
        bytes.len() >= encode_scalar(c as u32).len(),
    ensures
        bytes.subrange(0, encode_scalar(c as u32).len() as int) != encode_scalar(c as u32),
{
    let ex = encode_scalar(x as u32);
    let ec = encode_scalar(c as u32);
    encode_utf8_first_scalar(seq![x]);
    encode_utf8_first_scalar(seq![c]);
    assert(encode_utf8(seq![x]) =~= ex) by {
        assert(encode_utf8(seq![x]) =~= ex + encode_utf8(seq![x].drop_first()));
    }
    assert(encode_utf8(seq![c]) =~= ec) by {
        assert(encode_utf8(seq![c]) =~= ec + encode_utf8(seq![c].drop_first()));
    }
    if bytes.subrange(0, ec.len() as int) == ec {
        // Both encodings are prefixes of `bytes`; their first bytes agree, so
        // they have the same length, so they are equal.
        assert(ex[0] == bytes[0]) by {
            assert(bytes.subrange(0, ex.len() as int)[0] == bytes[0]);
        }
        assert(ec[0] == bytes[0]) by {
            assert(bytes.subrange(0, ec.len() as int)[0] == bytes[0]);
        }
        assert(length_of_first_scalar(ex) == length_of_first_scalar(ec));
        assert(ex.len() == ec.len());
        assert(ex =~= ec) by {
            assert forall|q: int| 0 <= q < ex.len() implies ex[q] == ec[q] by {
                assert(bytes.subrange(0, ex.len() as int)[q] == bytes[q]);
                assert(bytes.subrange(0, ec.len() as int)[q] == bytes[q]);
            }
        }
        char_is_scalar(x);
        char_is_scalar(c);
        char_u32_cast(x, decode_first_scalar(ex));
        char_u32_cast(c, decode_first_scalar(ec));
    }
}

/// Inside a character's encoding, past its first byte, only continuation
/// bytes occur.
proof fn lemma_tail_bytes_continue(x: char, q: int)
    requires
        0 < q < encode_scalar(x as u32).len(),
    ensures
        is_continuation_byte(encode_scalar(x as u32)[q]),
{
    encode_utf8_first_scalar(seq![x]);
    assert(encode_utf8(seq![x]) =~= encode_scalar(x as u32) + encode_utf8(seq![x].drop_first()));
}

/// The first occurrence of a character's encoding in the encoding of a text
/// is where the character first occurs in the text.
pub proof fn lemma_char_search(s: Seq<char>, c: char)
    ensures
        first_match(encode_utf8(s), encode_scalar(c as u32)) == match first_index_of(s, c) {
            Some(k) => Some(encode_utf8(s.take(k)).len() as int),
            None => None,
        },
    decreases s.len(),
{
    let pat = encode_scalar(c as u32);
    let hay = encode_utf8(s);
    assert(pat.len() > 0);
    if s.len() == 0 {
    } else {
        let x = s[0];
        let t = s.drop_first();
        let ex = encode_scalar(x as u32);
        let et = encode_utf8(t);
        assert(hay =~= ex + et);
        if x == c {
            assert(hay.subrange(0, pat.len() as int) =~= pat);
            assert(s.take(0) =~= Seq::<char>::empty());
        } else {
            lemma_char_search(t, c);
            // No occurrence starts inside the encoding of `x`.
            assert forall|q: int| 0 <= q < ex.len() implies !occurs_at(hay, pat, q) by {
                if occurs_at(hay, pat, q) {
                    if q == 0 {
                        assert(hay.subrange(0, ex.len() as int) =~= ex);
                        lemma_distinct_first_scalar(hay, x, c);
                    } else {
                        lemma_tail_bytes_continue(x, q);
                        assert(hay[q] == ex[q]);
                        assert(hay.subrange(q, q + pat.len())[0] == hay[q]);
                        encode_utf8_first_scalar(seq![c]);
                        assert(encode_utf8(seq![c]) =~= pat + encode_utf8(
                            seq![c].drop_first(),
                        ));
                    }
                }
            }
            if ex.len() + pat.len() <= hay.len() + 1 {
                lemma_skip_non_matches(hay, pat, 0, ex.len() as int);
            } else {
                lemma_first_match_from(hay, pat, 0);
                assert(first_match_from(hay, pat, 0) is None);
            }
            lemma_search_shift(ex, et, pat, 0);
            lemma_first_index_of(t, c);
            if let Some(k) = first_index_of(t, c) {
                assert(s.take(k + 1) =~= seq![x] + t.take(k));
                lemma_encode_utf8_concat(seq![x], t.take(k));
                assert(encode_utf8(seq![x]) =~= ex + encode_utf8(seq![x].drop_first()));
            }
        }
    }
}

} // verus!
