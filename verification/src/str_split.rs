use vstd::prelude::*;
use vstd::utf8::*;
use vstd::string::StringSliceAdditionalSpecFns;
use crate::char_search::{first_index_of, lemma_char_search, lemma_encode_utf8_concat, lemma_first_index_of};

verus! {

/// `pat` occurs in `hay` starting at byte `p`.
pub open spec fn occurs_at(hay: Seq<u8>, pat: Seq<u8>, p: int) -> bool {
    &&& 0 <= p
    &&& p + pat.len() <= hay.len()
    &&& hay.subrange(p, p + pat.len()) == pat
}

/// The first position at or after `i` where `pat` occurs in `hay`.
pub open spec fn first_match_from(hay: Seq<u8>, pat: Seq<u8>, i: int) -> Option<int>
    decreases hay.len() + 1 - i,
{
    if i < 0 || i + pat.len() > hay.len() {
        None
    } else if occurs_at(hay, pat, i) {
        Some(i)
    } else {
        first_match_from(hay, pat, i + 1)
    }
}

/// The first position where `pat` occurs in `hay`.
pub open spec fn first_match(hay: Seq<u8>, pat: Seq<u8>) -> Option<int> {
    first_match_from(hay, pat, 0)
}

/// What `first_match_from` finds is an occurrence, and no earlier position
/// from `i` on is one.
pub proof fn lemma_first_match_from(hay: Seq<u8>, pat: Seq<u8>, i: int)
    requires
        0 <= i,
    ensures
        first_match_from(hay, pat, i) matches Some(p) ==> i <= p && occurs_at(hay, pat, p) && (
        forall|q: int| i <= q < p ==> !occurs_at(hay, pat, q)),
        first_match_from(hay, pat, i) is None ==> forall|q: int|
            i <= q ==> !occurs_at(hay, pat, q),
    decreases hay.len() + 1 - i,
{
    if i + pat.len() > hay.len() {
    } else if occurs_at(hay, pat, i) {
    } else {
        lemma_first_match_from(hay, pat, i + 1);
    }
}

/// Searches `hay` for the first occurrence of `pat`.
pub fn find_bytes(hay: &[u8], pat: &[u8]) -> (r: Option<usize>)
    ensures
        r matches Some(p) ==> first_match(hay@, pat@) == Some(p as int),
        r is None ==> first_match(hay@, pat@) is None,
{
    let n = hay.len();
    let m = pat.len();
    if m > n {
        return None;
    }
    let mut i: usize = 0;
    while i <= n - m
        invariant
            n == hay@.len(),
            m == pat@.len(),
            m <= n,
            i <= n,
            first_match(hay@, pat@) == first_match_from(hay@, pat@, i as int),
        decreases n - i,
    {
        let mut j: usize = 0;
        let mut same = true;
        while j < m
            invariant
                n == hay@.len(),
                m == pat@.len(),
                i + m <= n,
                j <= m,
                same == (forall|k: int| 0 <= k < j ==> hay@[i + k] == pat@[k]),
            decreases m - j,
        {
            if hay[i + j] != pat[j] {
                same = false;
            }
            j = j + 1;
        }
        if same {
            assert(hay@.subrange(i as int, i + m) =~= pat@);
            return Some(i);
        }
        assert(!occurs_at(hay@, pat@, i as int)) by {
            if occurs_at(hay@, pat@, i as int) {
                assert(forall|k: int|
                    0 <= k < m ==> hay@[i + k] == #[trigger] hay@.subrange(i as int, i + m)[k]);
            }
        }
        i = i + 1;
    }
    None
}

/// A byte that starts the encoding of a scalar is never a continuation byte.
proof fn lemma_leading_not_continuation(bytes: Seq<u8>)
    requires
        valid_utf8(bytes),
        bytes.len() > 0,
    ensures
        !is_continuation_byte(bytes[0]),
{
}

/// If `p` is a character boundary of `bytes` and `j` one of the bytes from
/// `p` on, then `p + j` is a character boundary of `bytes`.
proof fn lemma_boundary_shift(bytes: Seq<u8>, p: int, j: int)
    requires
        valid_utf8(bytes),
        is_char_boundary(bytes, p),
        valid_utf8(bytes.subrange(p, bytes.len() as int)),
        is_char_boundary(bytes.subrange(p, bytes.len() as int), j),
    ensures
        is_char_boundary(bytes, p + j),
    decreases bytes.len(),
{
    broadcast use is_char_boundary_start_end_of_seq;

    if p == 0 {
        assert(bytes.subrange(0, bytes.len() as int) =~= bytes);
    } else {
        let k = length_of_first_scalar(bytes);
        let tail = pop_first_scalar(bytes);
        assert(p >= k) by {
            reveal_with_fuel(is_char_boundary, 2);
        }
        assert(is_char_boundary(tail, p - k));
        assert(tail.subrange(p - k, tail.len() as int) =~= bytes.subrange(p, bytes.len() as int));
        lemma_boundary_shift(tail, p - k, j);
        assert(is_char_boundary(tail, p - k + j));
        assert(p + j > 0);
        if j > 0 {
            reveal_with_fuel(is_char_boundary, 2);
        }
        assert(p + j <= bytes.len()) by {
            reveal_with_fuel(is_char_boundary, 2);
        }
    }
}

/// A valid encoding that starts a valid byte sequence ends on a boundary.
proof fn lemma_prefix_boundary(bytes: Seq<u8>, pat: Seq<u8>)
    requires
        valid_utf8(bytes),
        valid_utf8(pat),
        pat.len() <= bytes.len(),
        bytes.subrange(0, pat.len() as int) == pat,
    ensures
        is_char_boundary(bytes, pat.len() as int),
    decreases pat.len(),
{
    if pat.len() == 0 {
    } else {
        let k = length_of_first_scalar(pat);
        assert(bytes[0] == pat[0]) by {
            assert(bytes.subrange(0, pat.len() as int)[0] == bytes[0]);
        }
        assert(length_of_first_scalar(bytes) == k);
        let pt = pop_first_scalar(pat);
        let bt = pop_first_scalar(bytes);
        assert(bt.subrange(0, pt.len() as int) =~= pt) by {
            assert forall|x: int| 0 <= x < pt.len() implies #[trigger] bt.subrange(
                0,
                pt.len() as int,
            )[x] == pt[x] by {
                assert(bytes.subrange(0, pat.len() as int)[x + k] == bytes[x + k]);
            }
        }
        lemma_prefix_boundary(bt, pt);
    }
}

/// An occurrence of a valid encoding (at the start, if it is empty) inside a valid byte sequence
/// starts and ends on character boundaries.
pub proof fn lemma_occurrence_boundaries(hay: Seq<u8>, pat: Seq<u8>, p: int)
    requires
        valid_utf8(hay),
        valid_utf8(pat),
        occurs_at(hay, pat, p),
        pat.len() > 0 || p == 0,
    ensures
        is_char_boundary(hay, p),
        is_char_boundary(hay, p + pat.len()),
{
    broadcast use is_char_boundary_start_end_of_seq;

    if pat.len() == 0 {
    } else {
        assert(hay[p] == pat[0]) by {
            assert(hay.subrange(p, p + pat.len())[0] == hay[p]);
        }
        lemma_leading_not_continuation(pat);
        is_char_boundary_iff_not_is_continuation_byte(hay, p);
        valid_utf8_split(hay, p);
        let suffix = hay.subrange(p, hay.len() as int);
        assert(suffix.subrange(0, pat.len() as int) =~= pat);
        lemma_prefix_boundary(suffix, pat);
        lemma_boundary_shift(hay, p, pat.len() as int);
    }
}

/// The UTF-8 encoding of a character.
pub fn encode_char(c: char) -> (v: Vec<u8>)
    ensures
        v@ == encode_scalar(c as u32),
        v@ == encode_utf8(seq![c]),
{
    proof {
        char_is_scalar(c);
        assert(encode_utf8(seq![c]) =~= encode_scalar(c as u32) + encode_utf8(
            seq![c].drop_first(),
        ));
        assert(encode_utf8(seq![c]) =~= encode_scalar(c as u32));
    }
    let v: u32 = c as u32;
    if v <= 0x7F {
        vec![(v & 0x7F) as u8]
    } else if v <= 0x7FF {
        vec![0xC0 | ((v >> 6) & 0x1F) as u8, 0x80 | (v & 0x3F) as u8]
    } else if v <= 0xFFFF {
        vec![
            0xE0 | ((v >> 12) & 0x0F) as u8,
            0x80 | ((v >> 6) & 0x3F) as u8,
            0x80 | (v & 0x3F) as u8,
        ]
    } else {
        vec![
            0xF0 | ((v >> 18) & 0x7) as u8,
            0x80 | ((v >> 12) & 0x3F) as u8,
            0x80 | ((v >> 6) & 0x3F) as u8,
            0x80 | (v & 0x3F) as u8,
        ]
    }
}

/// The byte range covered by the first occurrence of `pat` in `hay`.
pub open spec fn match_range(hay: Seq<u8>, pat: Seq<u8>) -> Option<(int, int)> {
    match first_match(hay, pat) {
        Some(p) => Some((p, p + pat.len())),
        None => None,
    }
}

/// Cutting out the first occurrence of a pattern loses nothing: the bytes
/// before it, the pattern and the bytes after it make up the whole.
pub proof fn lemma_match_reassembles(hay: Seq<u8>, pat: Seq<u8>)
    ensures
        match_range(hay, pat) matches Some((a, b)) ==> {
            &&& 0 <= a <= b <= hay.len()
            &&& b == a + pat.len()
            &&& hay == hay.subrange(0, a) + pat + hay.subrange(b, hay.len() as int)
        },
{
    lemma_first_match_from(hay, pat, 0);
    if let Some((a, b)) = match_range(hay, pat) {
        assert(hay =~= hay.subrange(0, a) + pat + hay.subrange(b, hay.len() as int));
    }
}

/// The bytes before the first occurrence of a non-empty pattern hold no
/// occurrence of it, and neither does a haystack in which it is not found.
pub proof fn lemma_piece_free_of_pattern(hay: Seq<u8>, pat: Seq<u8>)
    requires
        pat.len() > 0,
    ensures
        match match_range(hay, pat) {
            Some((a, _)) => forall|q: int| !occurs_at(#[trigger] hay.subrange(0, a), pat, q),
            None => forall|q: int| !occurs_at(hay, pat, q),
        },
{
    lemma_first_match_from(hay, pat, 0);
    if let Some((a, _)) = match_range(hay, pat) {
        let piece = hay.subrange(0, a);
        assert forall|q: int| !occurs_at(piece, pat, q) by {
            if occurs_at(piece, pat, q) {
                assert(piece.subrange(q, q + pat.len()) =~= hay.subrange(q, q + pat.len()));
                assert(occurs_at(hay, pat, q));
            }
        }
    }
}

/// All the pieces that splitting `hay` at each occurrence of the non-empty
/// pattern `pat` gives, in order.
pub open spec fn split_all(hay: Seq<u8>, pat: Seq<u8>) -> Seq<Seq<u8>>
    decreases hay.len(),
    when pat.len() > 0
{
    match match_range(hay, pat) {
        Some((a, b)) => {
            proof {
                lemma_match_reassembles(hay, pat);
            }
            seq![hay.subrange(0, a)] + split_all(hay.subrange(b, hay.len() as int), pat)
        },
        None => seq![hay],
    }
}

/// The pieces put back together with the pattern between each two.
pub open spec fn join(pieces: Seq<Seq<u8>>, pat: Seq<u8>) -> Seq<u8>
    decreases pieces.len(),
{
    if pieces.len() == 0 {
        Seq::empty()
    } else if pieces.len() == 1 {
        pieces[0]
    } else {
        pieces[0] + pat + join(pieces.drop_first(), pat)
    }
}

/// Splitting at a non-empty pattern and joining the pieces with it gives
/// the haystack back; there is always at least one piece.
pub proof fn lemma_split_join(hay: Seq<u8>, pat: Seq<u8>)
    requires
        pat.len() > 0,
    ensures
        split_all(hay, pat).len() >= 1,
        join(split_all(hay, pat), pat) == hay,
    decreases hay.len(),
{
    lemma_match_reassembles(hay, pat);
    match match_range(hay, pat) {
        Some((a, b)) => {
            let rest = hay.subrange(b, hay.len() as int);
            lemma_split_join(rest, pat);
            let pieces = split_all(hay, pat);
            assert(pieces.drop_first() =~= split_all(rest, pat));
        },
        None => {},
    }
}

/// One split step: the first piece of `split_all` is what `StrSplit::next`
/// hands out for a remainder `hay` (the bytes up to the first occurrence, or
/// all of `hay`), and the pieces after it are those of what `next` leaves as
/// the remainder (none once the remainder is gone).
pub proof fn lemma_split_all_step(hay: Seq<u8>, pat: Seq<u8>)
    requires
        pat.len() > 0,
    ensures
        match match_range(hay, pat) {
            Some((a, b)) => {
                &&& split_all(hay, pat)[0] == hay.subrange(0, a)
                &&& split_all(hay, pat).drop_first() == split_all(
                    hay.subrange(b, hay.len() as int),
                    pat,
                )
            },
            None => split_all(hay, pat) == seq![hay],
        },
{
    lemma_match_reassembles(hay, pat);
    if let Some((a, b)) = match_range(hay, pat) {
        assert(split_all(hay, pat).drop_first() =~= split_all(
            hay.subrange(b, hay.len() as int),
            pat,
        ));
    }
}

/// No piece of a split at a non-empty pattern holds an occurrence of it, and
/// there are at most one more pieces than bytes, so a split always ends.
pub proof fn lemma_split_all_pieces(hay: Seq<u8>, pat: Seq<u8>)
    requires
        pat.len() > 0,
    ensures
        forall|i: int, q: int|
            0 <= i < split_all(hay, pat).len() ==> !(#[trigger] occurs_at(
                split_all(hay, pat)[i],
                pat,
                q,
            )),
        split_all(hay, pat).len() <= hay.len() + 1,
    decreases hay.len(),
{
    lemma_match_reassembles(hay, pat);
    lemma_piece_free_of_pattern(hay, pat);
    let pieces = split_all(hay, pat);
    match match_range(hay, pat) {
        Some((a, b)) => {
            let rest = hay.subrange(b, hay.len() as int);
            lemma_split_all_pieces(rest, pat);
            lemma_split_all_step(hay, pat);
            assert forall|i: int, q: int| 0 <= i < pieces.len() implies !(#[trigger] occurs_at(
                pieces[i],
                pat,
                q,
            )) by {
                if i > 0 {
                    assert(pieces[i] == split_all(rest, pat)[i - 1]);
                    assert(!occurs_at(split_all(rest, pat)[i - 1], pat, q));
                } else {
                    assert(pieces[0] == hay.subrange(0, a));
                    assert(!occurs_at(hay.subrange(0, a), pat, q));
                }
            }
        },
        None => {},
    }
}

/// The number of occurrences of the non-empty `pat` that a scan of `hay`
/// from the left finds, each scan going on after the occurrence it found.
pub open spec fn count_matches(hay: Seq<u8>, pat: Seq<u8>) -> nat
    decreases hay.len(),
    when pat.len() > 0
{
    match match_range(hay, pat) {
        Some((a, b)) => {
            proof {
                lemma_match_reassembles(hay, pat);
            }
            1 + count_matches(hay.subrange(b, hay.len() as int), pat)
        },
        None => 0,
    }
}

/// A split at a non-empty pattern gives one piece more than the occurrences
/// that a scan from the left finds.
pub proof fn lemma_split_all_count(hay: Seq<u8>, pat: Seq<u8>)
    requires
        pat.len() > 0,
    ensures
        split_all(hay, pat).len() == 1 + count_matches(hay, pat),
    decreases hay.len(),
{
    lemma_match_reassembles(hay, pat);
    if let Some((a, b)) = match_range(hay, pat) {
        lemma_split_all_count(hay.subrange(b, hay.len() as int), pat);
    }
}

/// An empty pattern is found at the very start of every haystack.
pub proof fn lemma_empty_pattern(hay: Seq<u8>)
    ensures
        match_range(hay, Seq::empty()) == Some((0int, 0int)),
{
    assert(occurs_at(hay, Seq::empty(), 0)) by {
        assert(hay.subrange(0, 0) =~= Seq::<u8>::empty());
    }
}

/// Something that can be searched for in a string.
pub trait Delimiter {
    /// The byte range of the first occurrence of the delimiter in the
    /// UTF-8 bytes `hay`, if any.
    spec fn spec_find_next(&self, hay: Seq<u8>) -> Option<(int, int)>;

    /// Finds the first occurrence of the delimiter in `s`, as a byte range
    /// whose ends are character boundaries.
    fn find_next(&self, s: &str) -> (r: Option<(usize, usize)>)
        ensures
            match r {
                Some((a, b)) => {
                    &&& self.spec_find_next(s.spec_bytes()) == Some((a as int, b as int))
                    &&& a <= b <= s.spec_bytes().len()
                    &&& is_char_boundary(s.spec_bytes(), a as int)
                    &&& is_char_boundary(s.spec_bytes(), b as int)
                },
                None => self.spec_find_next(s.spec_bytes()) is None,
            },
    ;
}

/// Finds the first occurrence of the valid encoding `pat` in the string `s`.
fn find_encoded(s: &str, pat: &[u8]) -> (r: Option<(usize, usize)>)
    requires
        valid_utf8(pat@),
    ensures
        match r {
            Some((a, b)) => {
                &&& match_range(s.spec_bytes(), pat@) == Some((a as int, b as int))
                &&& a <= b <= s.spec_bytes().len()
                &&& is_char_boundary(s.spec_bytes(), a as int)
                &&& is_char_boundary(s.spec_bytes(), b as int)
            },
            None => match_range(s.spec_bytes(), pat@) is None,
        },
{
    let hay = s.as_bytes();
    match find_bytes(hay, pat) {
        Some(p) => {
            proof {
                encode_utf8_valid_utf8(s@);
                lemma_first_match_from(hay@, pat@, 0);
                if pat@.len() == 0 {
                    assert(occurs_at(hay@, pat@, 0)) by {
                        assert(hay@.subrange(0, 0) =~= pat@);
                    }
                }
                assert(occurs_at(hay@, pat@, p as int));
                lemma_occurrence_boundaries(hay@, pat@, p as int);
                assert(p + pat@.len() <= hay@.len());
                assert(hay@.len() == hay.len());
            }
            Some((p, p + pat.len()))
        },
        None => None,
    }
}

impl<'b> Delimiter for &'b str {
    open spec fn spec_find_next(&self, hay: Seq<u8>) -> Option<(int, int)> {
        match_range(hay, self.spec_bytes())
    }

    fn find_next(&self, s: &str) -> (r: Option<(usize, usize)>) {
        proof {
            encode_utf8_valid_utf8(self@);
        }
        find_encoded(s, self.as_bytes())
    }
}

impl Delimiter for char {
    open spec fn spec_find_next(&self, hay: Seq<u8>) -> Option<(int, int)> {
        match_range(hay, encode_scalar(*self as u32))
    }

    fn find_next(&self, s: &str) -> (r: Option<(usize, usize)>) {
        let pat = encode_char(*self);
        proof {
            encode_utf8_valid_utf8(seq![*self]);
        }
        find_encoded(s, pat.as_slice())
    }
}

/// `d` finds, in every haystack, the first occurrence of the non-empty
/// pattern `pat`.
pub open spec fn finds_pattern<D: Delimiter>(d: D, pat: Seq<u8>) -> bool {
    &&& pat.len() > 0
    &&& forall|hay: Seq<u8>| #[trigger] d.spec_find_next(hay) == match_range(hay, pat)
}

/// A non-empty string delimiter finds its own bytes.
pub proof fn lemma_str_finds_pattern(d: &str)
    requires
        d@.len() > 0,
    ensures
        finds_pattern(d, d.spec_bytes()),
        d.spec_bytes() == encode_scalar(d@[0] as u32) + encode_utf8(d@.drop_first()),
{
}

/// A character delimiter finds its UTF-8 encoding.
pub proof fn lemma_char_finds_pattern(c: char)
    ensures
        finds_pattern(c, encode_scalar(c as u32)),
{
}

/// Splits a string at each occurrence of a delimiter.
///
/// `remainder` is the part of the haystack not yet handed out; it is `None`
/// once the last piece has been returned.
#[derive(Debug)]
pub struct StrSplit<'haystack, D> {
    remainder: Option<&'haystack str>,
    delimiter: D,
}

impl<'haystack, D> StrSplit<'haystack, D> {
    /// The bytes not yet handed out, if the split is not finished.
    pub closed spec fn remainder(&self) -> Option<Seq<u8>> {
        match self.remainder {
            Some(r) => Some(r.spec_bytes()),
            None => None,
        }
    }

    pub closed spec fn delimiter(&self) -> D {
        self.delimiter
    }

    /// The pieces still to come, where the delimiter finds the non-empty
    /// pattern `pat`: none once the split is finished, else those of
    /// splitting the remainder at `pat`.
    pub open spec fn pieces_left(&self, pat: Seq<u8>) -> Seq<Seq<u8>> {
        match self.remainder() {
            Some(rem) => split_all(rem, pat),
            None => Seq::empty(),
        }
    }

    pub fn new(haystack: &'haystack str, delimiter: D) -> (s: Self)
        ensures
            s.remainder() == Some(haystack.spec_bytes()),
            s.delimiter() == delimiter,
    {
        StrSplit { remainder: Some(haystack), delimiter }
    }
}

impl<'haystack, D: Delimiter> StrSplit<'haystack, D> {
    /// The next piece: the remainder up to the first delimiter, or the whole
    /// remainder when no delimiter is left in it.
    pub fn next(&mut self) -> (r: Option<&'haystack str>)
        ensures
            final(self).delimiter() == old(self).delimiter(),
            match old(self).remainder() {
                None => r is None && final(self).remainder() is None,
                Some(rem) => match old(self).delimiter().spec_find_next(rem) {
                    Some((a, b)) => {
                        &&& r matches Some(piece) && piece.spec_bytes() == rem.subrange(0, a)
                        &&& final(self).remainder() == Some(rem.subrange(b, rem.len() as int))
                    },
                    None => {
                        &&& r matches Some(piece) && piece.spec_bytes() == rem
                        &&& final(self).remainder() is None
                    },
                },
            },
            forall|pat: Seq<u8>| #[trigger]
                finds_pattern(old(self).delimiter(), pat) ==> {
                    &&& old(self).pieces_left(pat).len() == 0 ==> r is None
                        && final(self).pieces_left(pat).len() == 0
                    &&& old(self).pieces_left(pat).len() > 0 ==> (r matches Some(piece)
                        && piece.spec_bytes() == old(self).pieces_left(pat)[0])
                        && final(self).pieces_left(pat) == old(self).pieces_left(pat).drop_first()
                },
    {
        proof {
            assert forall|pat: Seq<u8>| #[trigger]
                finds_pattern(old(self).delimiter(), pat) implies old(self).remainder() matches Some(rem)
                ==> {
                    &&& old(self).delimiter().spec_find_next(rem) == match_range(rem, pat)
                    &&& split_all(rem, pat).len() > 0
                } by {
                if let Some(rem) = old(self).remainder() {
                    assert(old(self).delimiter().spec_find_next(rem) == match_range(rem, pat));
                    lemma_split_all_step(rem, pat);
                    lemma_split_join(rem, pat);
                    lemma_match_reassembles(rem, pat);
                    if let Some((a, b)) = match_range(rem, pat) {
                        lemma_split_join(rem.subrange(b, rem.len() as int), pat);
                    }
                }
            }
        }
        match self.remainder {
            None => None,
            Some(remainder) => {
                match self.delimiter.find_next(remainder) {
                    Some((delim_start, delim_end)) => {
                        let (until_delimiter, _) = remainder.split_at(delim_start);
                        let (_, rest) = remainder.split_at(delim_end);
                        self.remainder = Some(rest);
                        Some(until_delimiter)
                    },
                    None => {
                        self.remainder = None;
                        Some(remainder)
                    },
                }
            },
        }
    }

    /// Hands out every piece that is left, in order, where the delimiter
    /// finds a non-empty pattern (with an empty one the pieces never end).
    ///
    /// The pieces are those of splitting the remainder at the pattern:
    /// joined with it they give the remainder back, none holds it, and there
    /// is one more of them than occurrences a scan from the left finds.
    pub fn collect_vec(self) -> (v: Vec<&'haystack str>)
        requires
            exists|pat: Seq<u8>| finds_pattern(self.delimiter(), pat),
        ensures
            forall|pat: Seq<u8>| #[trigger]
                finds_pattern(self.delimiter(), pat) ==> {
                    &&& piece_bytes(v@) == self.pieces_left(pat)
                    &&& forall|i: int, q: int|
                        0 <= i < v.len() ==> !(#[trigger] occurs_at(piece_bytes(v@)[i], pat, q))
                    &&& self.remainder() matches Some(rem) ==> {
                        &&& join(piece_bytes(v@), pat) == rem
                        &&& v.len() == 1 + count_matches(rem, pat)
                        &&& v.len() <= rem.len() + 1
                    }
                    &&& self.remainder() is None ==> v.len() == 0
                },
    {
        let ghost pat = choose|pat: Seq<u8>| finds_pattern(self.delimiter(), pat);
        let ghost all = self.pieces_left(pat);
        let mut split = self;
        let mut v: Vec<&'haystack str> = Vec::new();
        loop
            invariant
                finds_pattern(split.delimiter(), pat),
                split.delimiter() == self.delimiter(),
                all == self.pieces_left(pat),
                piece_bytes(v@) + split.pieces_left(pat) == all,
            ensures
                piece_bytes(v@) == all,
            decreases split.pieces_left(pat).len(),
        {
            match split.next() {
                Some(piece) => {
                    v.push(piece);
                    assert(piece_bytes(v@) + split.pieces_left(pat) =~= all);
                },
                None => {
                    assert(piece_bytes(v@) =~= all);
                    break;
                },
            }
        }
        proof {
            assert forall|p: Seq<u8>| #[trigger] finds_pattern(self.delimiter(), p) implies p == pat by {
                lemma_finds_pattern_unique(self.delimiter(), pat, p);
            }
            if let Some(rem) = self.remainder() {
                lemma_split_join(rem, pat);
                lemma_split_all_pieces(rem, pat);
                lemma_split_all_count(rem, pat);
            }
        }
        v
    }
}

/// The bytes of each piece.
pub open spec fn piece_bytes(v: Seq<&str>) -> Seq<Seq<u8>> {
    v.map_values(|x: &str| x.spec_bytes())
}

/// A delimiter finds at most one pattern.
proof fn lemma_finds_pattern_unique<D: Delimiter>(d: D, p1: Seq<u8>, p2: Seq<u8>)
    requires
        finds_pattern(d, p1),
        finds_pattern(d, p2),
    ensures
        p1 == p2,
{
    assert(d.spec_find_next(p1) == match_range(p1, p1));
    assert(d.spec_find_next(p1) == match_range(p1, p2));
    assert(d.spec_find_next(p2) == match_range(p2, p1));
    assert(d.spec_find_next(p2) == match_range(p2, p2));
    assert(occurs_at(p1, p1, 0)) by {
        assert(p1.subrange(0, p1.len() as int) =~= p1);
    }
    assert(occurs_at(p2, p2, 0)) by {
        assert(p2.subrange(0, p2.len() as int) =~= p2);
    }
    lemma_first_match_from(p1, p1, 0);
    lemma_first_match_from(p1, p2, 0);
    lemma_first_match_from(p2, p1, 0);
    lemma_first_match_from(p2, p2, 0);
    assert(p1.subrange(0, p1.len() as int) =~= p1);
    assert(p2.subrange(0, p2.len() as int) =~= p2);
}

/// The part of `s` before the first occurrence of `c`, or all of `s`: the
/// first piece of splitting `s` at `c`.
pub fn until_char<'s>(s: &'s str, c: char) -> (r: &'s str)
    ensures
        match match_range(s.spec_bytes(), encode_scalar(c as u32)) {
            Some((a, _)) => r.spec_bytes() == s.spec_bytes().subrange(0, a),
            None => r.spec_bytes() == s.spec_bytes(),
        },
        r@ == match first_index_of(s@, c) {
            Some(k) => s@.take(k),
            None => s@,
        },
{
    let mut split = StrSplit::new(s, c);
    let r = split.next().unwrap();
    proof {
        lemma_char_search(s@, c);
        encode_utf8_decode_utf8(r@);
        encode_utf8_decode_utf8(s@);
        if let Some(k) = first_index_of(s@, c) {
            lemma_first_index_of(s@, c);
            let head = s@.take(k);
            assert(s@ =~= head + s@.skip(k));
            lemma_encode_utf8_concat(head, s@.skip(k));
            assert(s.spec_bytes().subrange(0, encode_utf8(head).len() as int) =~= encode_utf8(
                head,
            ));
            encode_utf8_decode_utf8(head);
        }
    }
    r
}

} // verus!
