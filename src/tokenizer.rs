//! Splitting a document into lowercase words and word n-grams.
use vstd::prelude::*;
use crate::key_index::KeyIndex;

verus! {

/// What splitting `text` on every single character outside
/// `[A-Za-z0-9_]` gives, each piece as its UTF-8 bytes.
pub uninterp spec fn non_word_pieces(text: Seq<char>) -> Seq<Seq<u8>>;

/// Relies on `regex::Regex::split` with the pattern `[^A-Za-z0-9_]`: the
/// pieces of the text between single such characters, empty pieces
/// included.
#[verifier::external_body]
fn split_non_word(text: &str) -> (r: Vec<Vec<u8>>)
    ensures
        byte_strings(r@) == non_word_pieces(text@),
{
    let re = regex::Regex::new(r"[^A-Za-z0-9_]").unwrap();
    re.split(text).map(|piece| piece.as_bytes().to_vec()).collect()
}

/// ASCII lowercase of one byte; every other byte is kept.
pub open spec fn lower_byte(b: u8) -> u8 {
    if 65 <= b && b <= 90 {
        (b + 32) as u8
    } else {
        b
    }
}

pub open spec fn lower_bytes(s: Seq<u8>) -> Seq<u8> {
    s.map_values(|b: u8| lower_byte(b))
}

/// The words of a document: its non-word-separated pieces, lowercased.
pub open spec fn words_of(text: Seq<char>) -> Seq<Seq<u8>> {
    non_word_pieces(text).map_values(|w: Seq<u8>| lower_bytes(w))
}

/// The n-grams of a word sequence: none below `min_length` words, the whole
/// sequence when it is shorter than `n`, else every window of `n` words.
pub open spec fn ngram_windows(words: Seq<Seq<u8>>, n: nat, min_length: nat) -> Seq<
    Seq<Seq<u8>>,
> {
    if words.len() < min_length {
        Seq::empty()
    } else if words.len() < n {
        seq![words]
    } else {
        Seq::new((words.len() - n + 1) as nat, |i: int| words.subrange(i, i + n))
    }
}

/// Words joined with a single space (0x20) between neighbours.
pub open spec fn join_words(words: Seq<Seq<u8>>) -> Seq<u8>
    decreases words.len(),
{
    if words.len() == 0 {
        Seq::empty()
    } else if words.len() == 1 {
        words[0]
    } else {
        join_words(words.drop_last()) + seq![32u8] + words.last()
    }
}

/// The tokens of a word sequence, in window order, repeats kept.
pub open spec fn token_seq(words: Seq<Seq<u8>>, n: nat, min_length: nat) -> Seq<Seq<u8>> {
    ngram_windows(words, n, min_length).map_values(|g: Seq<Seq<u8>>| join_words(g))
}

/// The tokens of a document, in window order, repeats kept.
pub open spec fn text_tokens(text: Seq<char>, n: nat, min_length: nat) -> Seq<Seq<u8>> {
    token_seq(words_of(text), n, min_length)
}

pub open spec fn byte_strings(v: Seq<Vec<u8>>) -> Seq<Seq<u8>> {
    v.map_values(|w: Vec<u8>| w@)
}

proof fn lemma_byte_strings_push(s: Seq<Vec<u8>>, x: Vec<u8>)
    ensures
        byte_strings(s.push(x)) == byte_strings(s).push(x@),
{
    assert(byte_strings(s.push(x)) =~= byte_strings(s).push(x@));
}

fn lowercase_ascii(word: &Vec<u8>) -> (r: Vec<u8>)
    ensures
        r@ == lower_bytes(word@),
{
    let mut out: Vec<u8> = Vec::with_capacity(word.len());
    for i in 0..word.len()
        invariant
            out@ == lower_bytes(word@.take(i as int)),
    {
        let b = word[i];
        let l: u8 = if 65 <= b && b <= 90 {
            b + 32
        } else {
            b
        };
        out.push(l);
        assert(lower_bytes(word@.take(i + 1)) =~= lower_bytes(word@.take(i as int)).push(l));
    }
    assert(word@.take(word.len() as int) =~= word@);
    out
}

pub fn copy_bytes(v: &Vec<u8>) -> (r: Vec<u8>)
    ensures
        r@ == v@,
{
    let r = v.clone();
    proof {
        vstd::std_specs::vec::vec_clone_deep_view_proof(*v, r);
        assert(r.deep_view() =~= r@);
        assert(v.deep_view() =~= v@);
    }
    r
}

/// Splits a document on every character outside `[A-Za-z0-9_]` and
/// lowercases each piece.
/// Consecutive separators leave empty words in place.
pub fn split_text(text: &str) -> (r: Vec<Vec<u8>>)
    ensures
        byte_strings(r@) == words_of(text@),
{
    let pieces = split_non_word(text);
    let mut out: Vec<Vec<u8>> = Vec::with_capacity(pieces.len());
    for i in 0..pieces.len()
        invariant
            byte_strings(pieces@) == non_word_pieces(text@),
            byte_strings(out@) == words_of(text@).take(i as int),
    {
        let w = lowercase_ascii(&pieces[i]);
        assert(byte_strings(pieces@)[i as int] == pieces@[i as int]@);
        proof {
            lemma_byte_strings_push(out@, w);
            assert(words_of(text@).take(i + 1) =~= words_of(text@).take(i as int).push(w@));
        }
        out.push(w);
    }
    assert(words_of(text@).take(pieces.len() as int) =~= words_of(text@));
    out
}

/// The n-grams of a word sequence: none when it holds fewer than
/// `min_length` words, the whole sequence when it holds fewer than `n`,
/// else every contiguous window of `n` words.
pub fn ngrams(sequence: Vec<Vec<u8>>, n: &u32, min_length: &u32) -> (r: Vec<Vec<Vec<u8>>>)
    requires
        *n >= 1,
    ensures
        r@.map_values(|g: Vec<Vec<u8>>| byte_strings(g@)) == ngram_windows(
            byte_strings(sequence@),
            *n as nat,
            *min_length as nat,
        ),
{
    let ghost words = byte_strings(sequence@);
    if sequence.len() < *min_length as usize {
        let r: Vec<Vec<Vec<u8>>> = Vec::new();
        assert(r@.map_values(|g: Vec<Vec<u8>>| byte_strings(g@)) =~= Seq::<Seq<Seq<u8>>>::empty());
        return r;
    }
    if sequence.len() < *n as usize {
        let r = vec![sequence];
        assert(r@.map_values(|g: Vec<Vec<u8>>| byte_strings(g@)) =~= seq![words]);
        return r;
    }
    let k = *n as usize;
    let count = sequence.len() - k + 1;
    let mut out: Vec<Vec<Vec<u8>>> = Vec::with_capacity(count);
    for i in 0..count
        invariant
            k == *n,
            count == sequence.len() - k + 1,
            words == byte_strings(sequence@),
            out@.len() == i,
            forall|j: int| 0 <= j < i ==> byte_strings(#[trigger] out@[j]@) == words.subrange(j, j + k),
    {
        let mut window: Vec<Vec<u8>> = Vec::with_capacity(k);
        for t in 0..k
            invariant
                i < count,
                count == sequence.len() - k + 1,
                words == byte_strings(sequence@),
                byte_strings(window@) == words.subrange(i as int, i + t),
        {
            let w = copy_bytes(&sequence[i + t]);
            assert(words[i + t] == sequence@[i + t]@);
            proof {
                lemma_byte_strings_push(window@, w);
                assert(words.subrange(i as int, i + t + 1) =~= words.subrange(i as int, i + t).push(w@));
            }
            window.push(w);
        }
        out.push(window);
    }
    assert(out@.map_values(|g: Vec<Vec<u8>>| byte_strings(g@)) =~= ngram_windows(
        words,
        *n as nat,
        *min_length as nat,
    ));
    out
}

/// Whether two byte strings are equal.
pub fn bytes_equal(x: &[u8], y: &[u8]) -> (r: bool)
    ensures
        r == (x@ == y@),
{
    if x.len() != y.len() {
        return false;
    }
    let mut i: usize = 0;
    while i < x.len()
        invariant
            x@.len() == y@.len(),
            i <= x@.len(),
            forall|j: int| 0 <= j < i ==> x@[j] == y@[j],
        decreases x@.len() - i,
    {
        if x[i] != y[i] {
            return false;
        }
        i = i + 1;
    }
    assert(x@ =~= y@);
    true
}

/// Joins words with a single space (0x20) between neighbours.
pub fn join_with_spaces(words: &Vec<Vec<u8>>) -> (r: Vec<u8>)
    ensures
        r@ == join_words(byte_strings(words@)),
{
    let ghost ws = byte_strings(words@);
    let mut out: Vec<u8> = Vec::new();
    if words.len() == 0 {
        assert(ws.len() == 0);
        return out;
    }
    out = copy_bytes(&words[0]);
    assert(ws.take(1).drop_last().len() == 0);
    assert(join_words(ws.take(1)) == ws.take(1)[0]);
    let mut i: usize = 1;
    while i < words.len()
        invariant
            ws == byte_strings(words@),
            1 <= i <= words.len(),
            out@ == join_words(ws.take(i as int)),
        decreases words.len() - i,
    {
        out.push(32u8);
        out.extend_from_slice(words[i].as_slice());
        assert(ws.take(i + 1).drop_last() =~= ws.take(i as int));
        assert(ws[i as int] == words@[i as int]@);
        assert(out@ =~= join_words(ws.take(i as int)) + seq![32u8] + ws[i as int]);
        i = i + 1;
    }
    assert(ws.take(words.len() as int) =~= ws);
    out
}

/// The tokens of a word sequence: each n-gram joined with single spaces,
/// in window order, repeats kept.
pub fn tokens_from_words(words: Vec<Vec<u8>>, n: &u32, min_length: &u32) -> (r: Vec<Vec<u8>>)
    requires
        *n >= 1,
    ensures
        byte_strings(r@) == token_seq(byte_strings(words@), *n as nat, *min_length as nat),
{
    let grams = ngrams(words, n, min_length);
    let ghost wins = grams@.map_values(|g: Vec<Vec<u8>>| byte_strings(g@));
    let mut out: Vec<Vec<u8>> = Vec::with_capacity(grams.len());
    for i in 0..grams.len()
        invariant
            wins == grams@.map_values(|g: Vec<Vec<u8>>| byte_strings(g@)),
            byte_strings(out@) == wins.take(i as int).map_values(|g: Seq<Seq<u8>>| join_words(g)),
    {
        let t = join_with_spaces(&grams[i]);
        proof {
            lemma_byte_strings_push(out@, t);
            assert(wins[i as int] == byte_strings(grams@[i as int]@));
            assert(wins.take(i + 1).map_values(|g: Seq<Seq<u8>>| join_words(g)) =~= wins.take(
                i as int,
            ).map_values(|g: Seq<Seq<u8>>| join_words(g)).push(t@));
        }
        out.push(t);
    }
    assert(wins.take(grams.len() as int) =~= wins);
    out
}

/// The token set of a document: every n-gram of its lowercase words joined
/// with single spaces, each distinct byte string once, in order of first
/// appearance.
pub fn tokenize(text: &str, n: &u32, min_length: &u32) -> (r: Vec<Vec<u8>>)
    requires
        *n >= 1,
    ensures
        byte_strings(r@).no_duplicates(),
        byte_strings(r@).to_set() == text_tokens(text@, *n as nat, *min_length as nat).to_set(),
{
    let all = tokens_from_words(split_text(text), n, min_length);
    let ghost toks = byte_strings(all@);
    let mut seen = KeyIndex::new();
    for i in 0..all.len()
        invariant
            toks == byte_strings(all@),
            toks == text_tokens(text@, *n as nat, *min_length as nat),
            seen.wf(),
            seen.view_keys().to_set() == toks.take(i as int).to_set(),
    {
        assert(toks[i as int] == all@[i as int]@);
        assert(toks.take(i + 1) =~= toks.take(i as int).push(all@[i as int]@));
        proof {
            lemma_push_to_set(toks.take(i as int), all@[i as int]@);
        }
        if seen.position(all[i].as_slice()).is_none() {
            let t = copy_bytes(&all[i]);
            let ghost before = seen.view_keys();
            seen.push(t);
            proof {
                lemma_push_to_set(before, t@);
            }
        } else {
            proof {
                assert(seen.view_keys().to_set().contains(all@[i as int]@));
                assert(toks.take(i + 1).to_set() =~= toks.take(i as int).to_set());
            }
        }
    }
    assert(toks.take(all.len() as int) =~= toks);
    seen.into_keys()
}

/// The words of one token give back that token alone: a run of at least
/// one and at least `min_length` words, no longer than `n`, is a single
/// n-gram, and it joins to the token.
pub proof fn lemma_token_from_own_words(words: Seq<Seq<u8>>, n: nat, min_length: nat)
    requires
        words.len() >= 1,
        words.len() >= min_length,
        words.len() <= n,
    ensures
        token_seq(words, n, min_length) == seq![join_words(words)],
{
    if words.len() == n {
        assert(words.subrange(0, n as int) =~= words);
    }
    assert(token_seq(words, n, min_length) =~= seq![join_words(words)]);
}

proof fn lemma_push_to_set<A>(s: Seq<A>, x: A)
    ensures
        s.push(x).to_set() == s.to_set().insert(x),
{
    assert(s.push(x).to_set() =~= s.to_set().insert(x)) by {
        assert forall|y: A| s.push(x).to_set().contains(y) implies s.to_set().insert(x).contains(y) by {
            let k = choose|k: int| 0 <= k < s.push(x).len() && s.push(x)[k] == y;
            if k < s.len() {
                assert(s[k] == y);
            }
        }
        assert forall|y: A| s.to_set().insert(x).contains(y) implies s.push(x).to_set().contains(y) by {
            if y == x {
                assert(s.push(x)[s.len() as int] == y);
            } else {
                let k = choose|k: int| 0 <= k < s.len() && s[k] == y;
                assert(s.push(x)[k] == y);
            }
        }
    }
}

} // verus!
