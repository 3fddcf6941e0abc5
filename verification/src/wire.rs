//! Little-endian 32-bit words, the unit that every message is made of.

use vstd::prelude::*;
use vstd::slice::slice_subrange;
use zerocopy::{FromBytes, IntoBytes};

verus! {

/// The four bytes of `v`, least significant first.
pub open spec fn le_bytes(v: u32) -> Seq<u8> {
    seq![
        (v % 256) as u8,
        ((v / 256) % 256) as u8,
        ((v / 65536) % 256) as u8,
        (v / 16777216) as u8,
    ]
}

/// The word whose least significant byte is `s[at]`.
pub open spec fn le_word(s: Seq<u8>, at: int) -> u32 {
    (s[at] + 256 * s[at + 1] + 65536 * s[at + 2] + 16777216 * s[at + 3]) as u32
}

/// The bytes of a run of words, word after word.
pub open spec fn words_bytes(words: Seq<u32>) -> Seq<u8> {
    Seq::new(4 * words.len(), |i: int| le_bytes(words[i / 4])[i % 4])
}

/// The `n` words that start at byte `at`.
pub open spec fn words_at(s: Seq<u8>, at: int, n: nat) -> Seq<u32> {
    Seq::new(n, |i: int| le_word(s, at + 4 * i))
}

/// Reading a word back from its own bytes gives the word.
pub proof fn lemma_word_of_bytes(v: u32)
    ensures
        le_bytes(v).len() == 4,
        le_word(le_bytes(v), 0) == v,
{
}

/// Writing a word that was read gives the bytes it was read from.
pub proof fn lemma_bytes_of_word(s: Seq<u8>, at: int)
    requires
        0 <= at,
        at + 4 <= s.len(),
    ensures
        le_bytes(le_word(s, at)) == s.subrange(at, at + 4),
{
    lemma_bytes_of_four(s[at], s[at + 1], s[at + 2], s[at + 3]);
    assert(le_bytes(le_word(s, at)) =~= s.subrange(at, at + 4));
}

proof fn lemma_bytes_of_four(a: u8, b: u8, c: u8, d: u8)
    ensures
        ({
            let v = (a + 256 * b + 65536 * c + 16777216 * d) as u32;
            le_bytes(v) == seq![a, b, c, d]
        }),
{
    let v = (a + 256 * b + 65536 * c + 16777216 * d) as u32;
    assert(v == a + 256 * b + 65536 * c + 16777216 * d);
    let t1 = (b + 256 * c + 65536 * d) as u32;
    let t2 = (c + 256 * d) as u32;
    assert(v == a + 256 * t1);
    assert(v % 256 == a && v / 256 == t1);
    assert(t1 == b + 256 * t2);
    assert(t1 % 256 == b && t1 / 256 == t2);
    assert(t2 % 256 == c && t2 / 256 == d as u32);
    assert(v / 65536 == t2);
    assert(v / 16777216 == d as u32);
    assert(le_bytes(v) =~= seq![a, b, c, d]);
}

/// Reading the words back from the bytes of a run of words gives the run, with
/// anything before and after the bytes.
pub proof fn lemma_words_of_bytes(words: Seq<u32>, pre: Seq<u8>, post: Seq<u8>)
    ensures
        words_at(pre + words_bytes(words) + post, pre.len() as int, words.len()) == words,
{
    let s = pre + words_bytes(words) + post;
    let got = words_at(s, pre.len() as int, words.len());
    assert forall|i: int| 0 <= i < words.len() implies got[i] == words[i] by {
        let at = pre.len() + 4 * i;
        assert(s[at] == le_bytes(words[i])[0]);
        assert(s[at + 1] == le_bytes(words[i])[1]);
        assert(s[at + 2] == le_bytes(words[i])[2]);
        assert(s[at + 3] == le_bytes(words[i])[3]);
        lemma_word_of_bytes(words[i]);
    }
    assert(got =~= words);
}

/// Writing the words that were read gives the bytes they were read from.
pub proof fn lemma_bytes_of_words(s: Seq<u8>, at: int, n: nat)
    requires
        0 <= at,
        at + 4 * n <= s.len(),
    ensures
        words_bytes(words_at(s, at, n)) == s.subrange(at, at + 4 * n),
{
    let words = words_at(s, at, n);
    assert forall|i: int| 0 <= i < 4 * n implies words_bytes(words)[i] == s[at + i] by {
        let w = i / 4;
        lemma_bytes_of_word(s, at + 4 * w);
        assert(s.subrange(at + 4 * w, at + 4 * w + 4)[i % 4] == s[at + i]);
    }
    assert(words_bytes(words) =~= s.subrange(at, at + 4 * n));
}

/// Calls `zerocopy::FromBytes::read_from_prefix` for
/// `zerocopy::little_endian::U32`: the call fails exactly on fewer than four
/// bytes, and otherwise the value is that of the first four, least significant
/// first.
#[verifier::external_body]
fn read_prefix(bytes: &[u8]) -> (r: Option<u32>)
    ensures
        r is Some <==> bytes@.len() >= 4,
        r matches Some(v) ==> v == le_word(bytes@, 0),
{
    zerocopy::little_endian::U32::read_from_prefix(bytes).ok().map(|(word, _)| word.get())
}

/// Calls `zerocopy::IntoBytes::as_bytes` on a `zerocopy::little_endian::U32`:
/// the result is the four bytes of the value, least significant first.
#[verifier::external_body]
fn word_bytes(v: u32) -> (r: Vec<u8>)
    ensures
        r@ == le_bytes(v),
{
    zerocopy::little_endian::U32::new(v).as_bytes().to_vec()
}

/// The word at byte `at`.
pub fn read_word(bytes: &[u8], at: usize) -> (r: u32)
    requires
        at + 4 <= bytes@.len(),
    ensures
        r == le_word(bytes@, at as int),
{
    let tail = slice_subrange(bytes, at, bytes.len());
    match read_prefix(tail) {
        Some(v) => v,
        None => 0,
    }
}

/// The `n` words that start at byte `at`.
pub fn read_words(bytes: &[u8], at: usize, n: usize) -> (r: Vec<u32>)
    requires
        at + 4 * n <= bytes@.len(),
    ensures
        r@ == words_at(bytes@, at as int, n as nat),
{
    let len: usize = bytes.len();
    let mut words: Vec<u32> = Vec::new();
    let mut i: usize = 0;
    while i < n
        invariant
            i <= n,
            at + 4 * n <= bytes@.len(),
            bytes@.len() == len,
            words@ == words_at(bytes@, at as int, i as nat),
        decreases n - i,
    {
        words.push(read_word(bytes, at + 4 * i));
        i += 1;
        assert(words@ =~= words_at(bytes@, at as int, i as nat));
    }
    words
}

/// Appends the bytes of `v`.
pub fn push_word(out: &mut Vec<u8>, v: u32)
    ensures
        final(out)@ == old(out)@ + le_bytes(v),
{
    let mut bytes = word_bytes(v);
    out.append(&mut bytes);
}

/// The bytes of a run of words.
pub fn encode_words(words: &[u32]) -> (r: Vec<u8>)
    ensures
        r@ == words_bytes(words@),
{
    let mut out: Vec<u8> = Vec::new();
    let mut i: usize = 0;
    while i < words.len()
        invariant
            i <= words@.len(),
            out@ == words_bytes(words@.take(i as int)),
        decreases words@.len() - i,
    {
        let ghost before = out@;
        push_word(&mut out, words[i]);
        proof {
            let prev = words@.take(i as int);
            let next = words@.take(i + 1);
            assert forall|k: int| 0 <= k < 4 * (i + 1) implies out@[k] == words_bytes(next)[k] by {
                if k < 4 * i {
                    assert(prev[k / 4] == next[k / 4]);
                    assert(before[k] == words_bytes(prev)[k]);
                } else {
                    assert(k / 4 == i as int);
                    assert(k - 4 * i == k % 4);
                }
            }
            assert(out@ =~= words_bytes(next));
        }
        i += 1;
    }
    assert(words@.take(i as int) =~= words@);
    out
}

/// A word is the sum of its bytes, each worth 256 times the one before it.
pub proof fn lemma_word_is_little_endian(s: Seq<u8>, at: int)
    ensures
        le_word(s, at) == s[at] + 0x100 * s[at + 1] + 0x1_0000 * s[at + 2] + 0x100_0000 * s[at + 3],
{
}

} // verus!
