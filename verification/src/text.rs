//! Searching string slices for ASCII delimiters and cutting them there.
//!
//! The model of a string is its sequence of characters. The executable code
//! walks the UTF-8 bytes instead, so this module also proves how positions in
//! the bytes correspond to positions in the characters.

use vstd::prelude::*;
use vstd::string::*;
use vstd::utf8::*;

verus! {

/// `pat` stands in `s` at index `i`.
pub open spec fn occurs_at<T>(s: Seq<T>, pat: Seq<T>, i: int) -> bool {
    &&& 0 <= i
    &&& i + pat.len() <= s.len()
    &&& s.subrange(i, i + pat.len()) =~= pat
}

/// `i` is the least index at which `pat` stands in `s`.
pub open spec fn first_at<T>(s: Seq<T>, pat: Seq<T>, i: int) -> bool {
    &&& occurs_at(s, pat, i)
    &&& forall|j: int| 0 <= j < i ==> !occurs_at(s, pat, j)
}

/// The index of the first occurrence of `pat` in `s`.
pub open spec fn find<T>(s: Seq<T>, pat: Seq<T>) -> Option<int> {
    if exists|i: int| occurs_at(s, pat, i) {
        Some(choose|i: int| first_at(s, pat, i))
    } else {
        None
    }
}

/// Where `pat` occurs at or below `i`, it has a first occurrence at or below `i`.
proof fn lemma_first_exists<T>(s: Seq<T>, pat: Seq<T>, i: int)
    requires
        occurs_at(s, pat, i),
    ensures
        exists|k: int| 0 <= k <= i && first_at(s, pat, k),
    decreases i,
{
    if exists|j: int| 0 <= j < i && occurs_at(s, pat, j) {
        let j: int = choose|j: int| 0 <= j < i && occurs_at(s, pat, j);
        lemma_first_exists(s, pat, j);
    } else {
        assert(first_at(s, pat, i));
    }
}

/// A first occurrence is what `find` returns.
pub proof fn lemma_find_first<T>(s: Seq<T>, pat: Seq<T>, i: int)
    requires
        first_at(s, pat, i),
    ensures
        find(s, pat) == Some(i),
{
    let k: int = choose|k: int| first_at(s, pat, k);
    assert(first_at(s, pat, k));
    assert(!(k < i));
    assert(!(i < k));
}

/// What `find` returns is a first occurrence.
pub proof fn lemma_find_some<T>(s: Seq<T>, pat: Seq<T>)
    requires
        find(s, pat) is Some,
    ensures
        first_at(s, pat, find(s, pat)->0),
{
    let i: int = choose|i: int| occurs_at(s, pat, i);
    lemma_first_exists(s, pat, i);
}

/// The number of characters that the first `b` bytes of the encoding of `s` hold.
pub open spec fn char_offset(s: Seq<char>, b: int) -> int {
    decode_utf8(encode_utf8(s).subrange(0, b)).len() as int
}

/// Every byte of `bytes` from `from` up to `to` is ASCII.
pub open spec fn ascii_run(bytes: Seq<u8>, from: int, to: int) -> bool {
    forall|j: int| from <= j < to ==> #[trigger] bytes[j] < 0x80
}

/// Encoding distributes over concatenation.
pub proof fn lemma_encode_concat(a: Seq<char>, b: Seq<char>)
    ensures
        encode_utf8(a + b) =~= encode_utf8(a) + encode_utf8(b),
    decreases a.len(),
{
    if a.len() == 0 {
        assert(a + b =~= b);
    } else {
        assert((a + b).drop_first() =~= a.drop_first() + b);
        lemma_encode_concat(a.drop_first(), b);
    }
}

/// An encoding is at least as long as what it encodes.
pub proof fn lemma_encode_len(a: Seq<char>)
    ensures
        encode_utf8(a).len() >= a.len(),
    decreases a.len(),
{
    if a.len() > 0 {
        lemma_encode_len(a.drop_first());
    }
}

/// Where the encoding of `chars` begins with `n` ASCII bytes, `chars` begins
/// with the `n` characters they spell, and the encoding can be cut behind them.
pub proof fn lemma_ascii_head(chars: Seq<char>, n: int)
    requires
        0 <= n <= encode_utf8(chars).len(),
        ascii_run(encode_utf8(chars), 0, n),
    ensures
        n <= chars.len(),
        forall|j: int| 0 <= j < n ==> (#[trigger] chars[j]) as u32 == encode_utf8(chars)[j] as u32,
        is_char_boundary(encode_utf8(chars), n),
        encode_utf8(chars.subrange(n, chars.len() as int)) =~= encode_utf8(chars).subrange(
            n,
            encode_utf8(chars).len() as int,
        ),
    decreases n,
{
    let bytes = encode_utf8(chars);
    encode_utf8_valid_utf8(chars);
    if n == 0 {
        assert(chars.subrange(0, chars.len() as int) =~= chars);
    } else {
        let rest = chars.drop_first();
        let b0: u8 = bytes[0];
        encode_utf8_first_scalar(chars);
        assert(b0 & 0x7F == b0) by (bit_vector)
            requires
                b0 < 0x80,
        ;
        assert forall|j: int| 0 <= j < n - 1 implies #[trigger] encode_utf8(rest)[j] < 0x80 by {
            assert(encode_utf8(rest)[j] == bytes[j + 1]);
        }
        lemma_ascii_head(rest, n - 1);
        assert forall|j: int| 0 <= j < n implies (#[trigger] chars[j]) as u32 == bytes[j] as u32 by {
            if j > 0 {
                assert(chars[j] == rest[j - 1]);
            }
        }
        assert(chars.subrange(n, chars.len() as int) =~= rest.subrange(n - 1, rest.len() as int));
        assert(pop_first_scalar(bytes) =~= encode_utf8(rest));
    }
}

/// Cutting an encoding at a character boundary cuts the characters at
/// `char_offset`.
pub proof fn lemma_split(s: Seq<char>, b: int)
    requires
        0 <= b <= encode_utf8(s).len(),
        is_char_boundary(encode_utf8(s), b),
    ensures
        0 <= char_offset(s, b) <= s.len(),
        encode_utf8(s.subrange(0, char_offset(s, b))) =~= encode_utf8(s).subrange(0, b),
        encode_utf8(s.subrange(char_offset(s, b), s.len() as int)) =~= encode_utf8(s).subrange(
            b,
            encode_utf8(s).len() as int,
        ),
{
    let bytes = encode_utf8(s);
    let left = bytes.subrange(0, b);
    let right = bytes.subrange(b, bytes.len() as int);
    encode_utf8_valid_utf8(s);
    encode_utf8_decode_utf8(s);
    valid_utf8_split(bytes, b);
    decode_utf8_split(bytes, b);
    decode_utf8_encode_utf8(left);
    decode_utf8_encode_utf8(right);
    let k: int = char_offset(s, b);
    assert(s.subrange(0, k) =~= decode_utf8(left));
    assert(s.subrange(k, s.len() as int) =~= decode_utf8(right));
}

/// The encoding of a prefix is a prefix of the encoding, and a longer prefix
/// has a longer encoding.
pub proof fn lemma_prefix_grows(s: Seq<char>, j: int, k: int)
    requires
        0 <= j < k <= s.len(),
    ensures
        encode_utf8(s.subrange(0, j)).len() < encode_utf8(s.subrange(0, k)).len(),
        encode_utf8(s.subrange(0, k)).len() <= encode_utf8(s).len(),
        encode_utf8(s.subrange(0, k)) =~= encode_utf8(s).subrange(
            0,
            encode_utf8(s.subrange(0, k)).len() as int,
        ),
{
    assert(s.subrange(0, k) =~= s.subrange(0, j) + s.subrange(j, k));
    lemma_encode_concat(s.subrange(0, j), s.subrange(j, k));
    lemma_encode_len(s.subrange(j, k));
    assert(s =~= s.subrange(0, k) + s.subrange(k, s.len() as int));
    lemma_encode_concat(s.subrange(0, k), s.subrange(k, s.len() as int));
}

/// Where `pat` stands in `s`, its encoding stands in the encoding of `s`,
/// behind the encoding of what precedes it.
pub proof fn lemma_occurs_encoded(s: Seq<char>, pat: Seq<char>, j: int)
    requires
        occurs_at(s, pat, j),
    ensures
        occurs_at(encode_utf8(s), encode_utf8(pat), encode_utf8(s.subrange(0, j)).len() as int),
{
    let pre = s.subrange(0, j);
    let post = s.subrange(j + pat.len(), s.len() as int);
    assert(s =~= pre + pat + post);
    lemma_encode_concat(pre + pat, post);
    lemma_encode_concat(pre, pat);
}

/// Where the encoding of `pat` stands nowhere in the encoding of `s`, `pat`
/// stands nowhere in `s`.
pub proof fn lemma_absent(s: Seq<char>, pat: Seq<char>)
    requires
        forall|p: int| !occurs_at(encode_utf8(s), encode_utf8(pat), p),
    ensures
        find(s, pat) is None,
{
    assert forall|j: int| !occurs_at(s, pat, j) by {
        if occurs_at(s, pat, j) {
            lemma_occurs_encoded(s, pat, j);
        }
    }
}

/// The first place at which the encoding of an ASCII pattern stands in the
/// encoding of `s` is a character boundary, and the pattern first stands in
/// `s` at the matching character.
pub proof fn lemma_found(s: Seq<char>, pat: Seq<char>, b: int)
    requires
        is_ascii_chars(pat),
        pat.len() > 0,
        first_at(encode_utf8(s), encode_utf8(pat), b),
    ensures
        is_char_boundary(encode_utf8(s), b),
        ascii_run(encode_utf8(s), b, b + pat.len()),
        first_at(s, pat, char_offset(s, b)),
        find(s, pat) == Some(char_offset(s, b)),
{
    let bytes = encode_utf8(s);
    let needle = encode_utf8(pat);
    let m: int = pat.len() as int;
    is_ascii_chars_encode_utf8(pat);
    encode_utf8_valid_utf8(s);
    assert forall|j: int| b <= j < b + m implies #[trigger] bytes[j] < 0x80 by {
        assert(pat[j - b] as u8 == needle[j - b]);
    }
    is_char_boundary_iff_not_is_continuation_byte(bytes, b);
    lemma_split(s, b);
    let k: int = char_offset(s, b);
    let tail = s.subrange(k, s.len() as int);
    assert forall|j: int| 0 <= j < m implies #[trigger] encode_utf8(tail)[j] < 0x80 by {
        assert(encode_utf8(tail)[j] == bytes[b + j]);
    }
    lemma_ascii_head(tail, m);
    assert forall|j: int| 0 <= j < m implies s.subrange(k, k + m)[j] == pat[j] by {
        char_u32_cast(tail[j], tail[j] as u32);
        char_u32_cast(pat[j], pat[j] as u32);
    }
    assert forall|j: int| 0 <= j < k implies !occurs_at(s, pat, j) by {
        if occurs_at(s, pat, j) {
            lemma_occurs_encoded(s, pat, j);
            lemma_prefix_grows(s, j, k);
        }
    }
    lemma_find_first(s, pat, k);
}

/// A later character boundary stands for a later character, or the same.
pub proof fn lemma_offset_monotone(s: Seq<char>, a: int, b: int)
    requires
        0 <= a <= b <= encode_utf8(s).len(),
        is_char_boundary(encode_utf8(s), a),
        is_char_boundary(encode_utf8(s), b),
    ensures
        char_offset(s, a) <= char_offset(s, b),
{
    if a < b {
        let bytes = encode_utf8(s);
        let k: int = char_offset(s, b);
        let head = s.subrange(0, k);
        encode_utf8_valid_utf8(s);
        encode_utf8_valid_utf8(head);
        lemma_split(s, b);
        is_char_boundary_iff_not_is_continuation_byte(bytes, a);
        is_char_boundary_iff_not_is_continuation_byte(encode_utf8(head), a);
        lemma_split(head, a);
        assert(encode_utf8(head).subrange(0, a) =~= bytes.subrange(0, a));
    }
}

/// Whether `needle` stands in `hay` at index `i`.
fn stands_at(hay: &[u8], needle: &[u8], i: usize) -> (r: bool)
    requires
        i + needle@.len() <= hay@.len(),
    ensures
        r == occurs_at(hay@, needle@, i as int),
{
    let n: usize = hay.len();
    let m: usize = needle.len();
    let mut j: usize = 0;
    while j < m
        invariant
            n == hay@.len(),
            m == needle@.len(),
            i + m <= n,
            j <= m,
            forall|t: int| 0 <= t < j ==> hay@[i + t] == needle@[t],
        decreases m - j,
    {
        if hay[i + j] != needle[j] {
            return false;
        }
        j += 1;
    }
    true
}

/// The byte index of the first occurrence of the ASCII pattern `pat` in `s`.
pub fn find_ascii(s: &str, pat: &str) -> (r: Option<usize>)
    requires
        is_ascii_chars(pat@),
        pat@.len() > 0,
    ensures
        match r {
            Some(b) => {
                &&& b + pat@.len() <= s.spec_bytes().len()
                &&& is_char_boundary(s.spec_bytes(), b as int)
                &&& ascii_run(s.spec_bytes(), b as int, b + pat@.len())
                &&& find(s@, pat@) == Some(char_offset(s@, b as int))
            },
            None => find(s@, pat@) is None,
        },
{
    let hay = s.as_bytes();
    let needle = pat.as_bytes();
    let n: usize = hay.len();
    let m: usize = needle.len();
    proof {
        is_ascii_chars_encode_utf8(pat@);
    }
    if m > n {
        proof {
            lemma_absent(s@, pat@);
        }
        return None;
    }
    let mut i: usize = 0;
    while i <= n - m
        invariant
            is_ascii_chars(pat@),
            pat@.len() > 0,
            hay@ == s.spec_bytes(),
            needle@ == pat.spec_bytes(),
            n == hay@.len(),
            m == needle@.len(),
            m == pat@.len(),
            m <= n,
            i <= n - m + 1,
            forall|p: int| 0 <= p < i ==> !occurs_at(hay@, needle@, p),
        decreases n - m + 1 - i,
    {
        if stands_at(hay, needle, i) {
            proof {
                lemma_found(s@, pat@, i as int);
            }
            return Some(i);
        }
        i += 1;
    }
    proof {
        lemma_absent(s@, pat@);
    }
    None
}

/// Cuts `s` at the byte index `at` and leaves out the `width` ASCII bytes that
/// stand there: what precedes them, and what follows them.
pub fn cut<'a>(s: &'a str, at: usize, width: usize) -> (r: (&'a str, &'a str))
    requires
        at + width <= s.spec_bytes().len(),
        is_char_boundary(s.spec_bytes(), at as int),
        ascii_run(s.spec_bytes(), at as int, at + width),
    ensures
        char_offset(s@, at as int) + width <= s@.len(),
        r.0@ =~= s@.subrange(0, char_offset(s@, at as int)),
        r.1@ =~= s@.subrange(char_offset(s@, at as int) + width, s@.len() as int),
        r.0.spec_bytes() =~= s.spec_bytes().subrange(0, at as int),
        r.1.spec_bytes() =~= s.spec_bytes().subrange(at + width, s.spec_bytes().len() as int),
{
    let (head, tail) = s.split_at(at);
    proof {
        let k: int = char_offset(s@, at as int);
        lemma_split(s@, at as int);
        encode_utf8_decode_utf8(head@);
        encode_utf8_decode_utf8(tail@);
        encode_utf8_decode_utf8(s@.subrange(0, k));
        encode_utf8_decode_utf8(s@.subrange(k, s@.len() as int));
        assert forall|j: int| 0 <= j < width implies #[trigger] tail.spec_bytes()[j] < 0x80 by {
            assert(tail.spec_bytes()[j] == s.spec_bytes()[at + j]);
        }
        lemma_ascii_head(tail@, width as int);
    }
    let (_, rest) = tail.split_at(width);
    proof {
        encode_utf8_decode_utf8(rest@);
        encode_utf8_decode_utf8(tail@.subrange(width as int, tail@.len() as int));
    }
    (head, rest)
}

/// Whether two string slices hold the same characters.
pub fn str_eq(a: &str, b: &str) -> (r: bool)
    ensures
        r == (a@ == b@),
{
    let x = a.as_bytes();
    let y = b.as_bytes();
    proof {
        encode_utf8_decode_utf8(a@);
        encode_utf8_decode_utf8(b@);
    }
    if x.len() != y.len() {
        return false;
    }
    let n: usize = x.len();
    let mut i: usize = 0;
    while i < n
        invariant
            x@ == a.spec_bytes(),
            y@ == b.spec_bytes(),
            n == x@.len(),
            n == y@.len(),
            i <= n,
            forall|t: int| 0 <= t < i ==> x@[t] == y@[t],
        decreases n - i,
    {
        if x[i] != y[i] {
            return false;
        }
        i += 1;
    }
    assert(x@ =~= y@);
    true
}

} // verus!
