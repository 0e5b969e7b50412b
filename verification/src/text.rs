use vstd::prelude::*;

verus! {

/// Number of bytes that the UTF-8 encoding of `c` takes.
pub open spec fn utf8_len(c: char) -> nat {
    let u = c as u32;
    if u <= 0x7f {
        1
    } else if u <= 0x7ff {
        2
    } else if u <= 0xffff {
        3
    } else {
        4
    }
}

/// Number of bytes that the UTF-8 encoding of `cs` takes.
pub open spec fn bytes_len(cs: Seq<char>) -> nat
    decreases cs.len(),
{
    if cs.len() == 0 {
        0
    } else {
        bytes_len(cs.drop_last()) + utf8_len(cs.last())
    }
}

/// Byte offset of the `i`-th character of `cs` in its UTF-8 encoding.
pub open spec fn offset(cs: Seq<char>, i: int) -> nat {
    bytes_len(cs.take(i))
}

pub open spec fn is_ascii_digit(c: char) -> bool {
    '0' <= c && c <= '9'
}

pub open spec fn is_ascii_alpha(c: char) -> bool {
    ('a' <= c && c <= 'z') || ('A' <= c && c <= 'Z')
}

/// Whether `c` has Unicode's White_Space property, which `char::is_whitespace`
/// documents: the code points U+0009 to U+000D, U+0020, U+0085, U+00A0,
/// U+1680, U+2000 to U+200A, U+2028, U+2029, U+202F, U+205F and U+3000.
pub open spec fn spec_is_whitespace(c: char) -> bool {
    let u = c as u32;
    ||| 0x09 <= u <= 0x0d
    ||| u == 0x20
    ||| u == 0x85
    ||| u == 0xa0
    ||| u == 0x1680
    ||| 0x2000 <= u <= 0x200a
    ||| u == 0x2028
    ||| u == 0x2029
    ||| u == 0x202f
    ||| u == 0x205f
    ||| u == 0x3000
}

/// Whether `c` is a whitespace character: one of the White_Space code points.
pub fn is_whitespace(c: char) -> (res: bool)
    ensures
        res == spec_is_whitespace(c),
{
    let u = c as u32;
    (0x09 <= u && u <= 0x0d) || u == 0x20 || u == 0x85 || u == 0xa0 || u == 0x1680 || (0x2000 <= u
        && u <= 0x200a) || u == 0x2028 || u == 0x2029 || u == 0x202f || u == 0x205f || u == 0x3000
}

/// Calls `str::len`, which counts the bytes of the UTF-8 encoding of `s`:
/// the contract states that this count is `bytes_len` of the characters.
#[verifier::external_body]
pub(crate) fn str_byte_len(s: &str) -> (n: usize)
    ensures
        n as nat == bytes_len(s@),
{
    s.len()
}

/// Calls `String::push`, which appends one character.
#[verifier::external_body]
pub(crate) fn push_char(s: &mut String, c: char)
    ensures
        final(s)@ == old(s)@.push(c),
{
    s.push(c)
}

/// The characters of `s`, in order.
pub fn chars_of(s: &str) -> (res: Vec<char>)
    ensures
        res@ == s@,
{
    broadcast use vstd::string::group_string_axioms;

    let mut res: Vec<char> = Vec::new();
    for c in it: s.chars()
        invariant
            res@ == it.seq().take(it.index() as int),
    {
        res.push(c);
    }
    res
}

/// The characters `cs[i..j]` as a string.
pub fn string_of_range(cs: &Vec<char>, i: usize, j: usize) -> (res: String)
    requires
        i <= j <= cs.len(),
    ensures
        res@ == cs@.subrange(i as int, j as int),
{
    let mut res = String::new();
    let mut k = i;
    while k < j
        invariant
            i <= k <= j <= cs.len(),
            res@ == cs@.subrange(i as int, k as int),
        decreases j - k,
    {
        push_char(&mut res, cs[k]);
        assert(res@ =~= cs@.subrange(i as int, k + 1));
        k = k + 1;
    }
    res
}

/// Byte length of one character in UTF-8.
pub fn char_utf8_len(c: char) -> (n: usize)
    ensures
        n as nat == utf8_len(c),
        1 <= n <= 4,
{
    let u = c as u32;
    if u <= 0x7f {
        1
    } else if u <= 0x7ff {
        2
    } else if u <= 0xffff {
        3
    } else {
        4
    }
}

pub proof fn lemma_bytes_len_add(a: Seq<char>, b: Seq<char>)
    ensures
        bytes_len(a + b) == bytes_len(a) + bytes_len(b),
    decreases b.len(),
{
    if b.len() == 0 {
        assert(a + b =~= a);
    } else {
        lemma_bytes_len_add(a, b.drop_last());
        assert((a + b).drop_last() =~= a + b.drop_last());
        assert((a + b).last() == b.last());
    }
}

pub proof fn lemma_bytes_len_ge_len(cs: Seq<char>)
    ensures
        bytes_len(cs) >= cs.len(),
    decreases cs.len(),
{
    if cs.len() > 0 {
        lemma_bytes_len_ge_len(cs.drop_last());
    }
}

/// The offset of the next character is the offset of this one plus its width.
pub proof fn lemma_offset_step(cs: Seq<char>, i: int)
    requires
        0 <= i < cs.len(),
    ensures
        offset(cs, i + 1) == offset(cs, i) + utf8_len(cs[i]),
{
    assert(cs.take(i + 1).drop_last() =~= cs.take(i));
}

/// Offsets grow at least by one byte per character, and the distance between
/// two offsets is the byte length of the characters between them.
pub proof fn lemma_offset_range(cs: Seq<char>, i: int, j: int)
    requires
        0 <= i <= j <= cs.len(),
    ensures
        offset(cs, j) == offset(cs, i) + bytes_len(cs.subrange(i, j)),
        offset(cs, j) >= offset(cs, i) + (j - i),
        offset(cs, j) <= bytes_len(cs),
{
    assert(cs.take(j) =~= cs.take(i) + cs.subrange(i, j));
    lemma_bytes_len_add(cs.take(i), cs.subrange(i, j));
    lemma_bytes_len_ge_len(cs.subrange(i, j));
    assert(cs =~= cs.take(j) + cs.subrange(j, cs.len() as int));
    lemma_bytes_len_add(cs.take(j), cs.subrange(j, cs.len() as int));
}

/// Advances the byte offset `pos` of character `i` to that of character `k`.
pub(crate) fn advance(cs: &Vec<char>, i: usize, k: usize, pos: usize, Ghost(total): Ghost<nat>) -> (res: usize)
    requires
        i <= k <= cs.len(),
        pos == offset(cs@, i as int),
        total == bytes_len(cs@),
        total <= usize::MAX,
    ensures
        res == offset(cs@, k as int),
{
    let mut j = i;
    let mut p = pos;
    while j < k
        invariant
            i <= j <= k <= cs.len(),
            p == offset(cs@, j as int),
            total == bytes_len(cs@),
            total <= usize::MAX,
        decreases k - j,
    {
        proof {
            lemma_offset_step(cs@, j as int);
            lemma_offset_range(cs@, j as int + 1, cs.len() as int);
        }
        p = p + char_utf8_len(cs[j]);
        j = j + 1;
    }
    p
}

} // verus!
