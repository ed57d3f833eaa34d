use vstd::prelude::*;
use vstd::utf8::{decode_utf8, encode_utf8, valid_utf8};

use crate::bytes::{le_bytes, le_value, lemma_le_round_trip};
use crate::dictionary::{entries_wf, word_bytes, word_of_bytes, lemma_word_round_trip, DictionaryV, Word};

verus! {

broadcast use vstd::utf8::encode_utf8_decode_utf8, vstd::utf8::encode_utf8_valid_utf8;

/// A string as the dictionary file holds it: its UTF-8 length, then its UTF-8 bytes.
pub open spec fn enc_str(s: Seq<char>) -> Seq<u8> {
    le_bytes(encode_utf8(s).len() as u32) + encode_utf8(s)
}

/// The word list, one string after another.
pub open spec fn enc_words(ws: Seq<Seq<char>>) -> Seq<u8>
    decreases ws.len(),
{
    if ws.len() == 0 {
        Seq::empty()
    } else {
        enc_str(ws[0]) + enc_words(ws.drop_first())
    }
}

/// Successors: each token, then its count.
pub open spec fn enc_next(s: Seq<(Word, u32)>) -> Seq<u8>
    decreases s.len(),
{
    if s.len() == 0 {
        Seq::empty()
    } else {
        word_bytes(s[0].0) + le_bytes(s[0].1) + enc_next(s.drop_first())
    }
}

/// One entry: the two key tokens, the number of successors, the successors.
pub open spec fn enc_entry(e: ((Word, Word), Seq<(Word, u32)>)) -> Seq<u8> {
    word_bytes(e.0.0) + word_bytes(e.0.1) + le_bytes(e.1.len() as u32) + enc_next(e.1)
}

/// The entries, one after another.
pub open spec fn enc_entries(es: Seq<((Word, Word), Seq<(Word, u32)>)>) -> Seq<u8>
    decreases es.len(),
{
    if es.len() == 0 {
        Seq::empty()
    } else {
        enc_entry(es[0]) + enc_entries(es.drop_first())
    }
}

/// The bytes of a dictionary: the number of words, the words, the number of
/// entries, the entries; every number four bytes little-endian.
pub open spec fn encode(d: DictionaryV) -> Seq<u8> {
    le_bytes(d.words.len() as u32) + enc_words(d.words) + le_bytes(d.entries.len() as u32) + enc_entries(
        d.entries,
    )
}

/// Whether every count and length of `d` fits the four bytes the format gives it.
pub open spec fn encodable(d: DictionaryV) -> bool {
    &&& d.words.len() <= u32::MAX
    &&& forall|i: int| 0 <= i < d.words.len() ==> encode_utf8(#[trigger] d.words[i]).len() <= u32::MAX
    &&& d.entries.len() <= u32::MAX
    &&& forall|i: int| 0 <= i < d.entries.len() ==> (#[trigger] d.entries[i]).1.len() <= u32::MAX
}

/// A well-formed dictionary: keys unique, successors sorted, tokens in range.
pub open spec fn view_wf(d: DictionaryV) -> bool {
    entries_wf(d.entries, d.words.len() as int)
}

pub proof fn lemma_enc_words_push(ws: Seq<Seq<char>>, x: Seq<char>)
    ensures
        enc_words(ws.push(x)) == enc_words(ws) + enc_str(x),
    decreases ws.len(),
{
    if ws.len() == 0 {
        assert(ws.push(x).drop_first() =~= Seq::<Seq<char>>::empty());
        assert(enc_words(ws.push(x).drop_first()) =~= Seq::<u8>::empty());
        assert(ws.push(x)[0] == x);
        assert(enc_words(ws.push(x)) =~= enc_str(x));
    } else {
        lemma_enc_words_push(ws.drop_first(), x);
        assert(ws.push(x).drop_first() =~= ws.drop_first().push(x));
        assert(enc_words(ws.push(x)) =~= enc_words(ws) + enc_str(x));
    }
}

pub proof fn lemma_enc_next_push(s: Seq<(Word, u32)>, x: (Word, u32))
    ensures
        enc_next(s.push(x)) == enc_next(s) + word_bytes(x.0) + le_bytes(x.1),
    decreases s.len(),
{
    if s.len() == 0 {
        assert(s.push(x).drop_first() =~= Seq::<(Word, u32)>::empty());
        assert(enc_next(s.push(x).drop_first()) =~= Seq::<u8>::empty());
        assert(s.push(x)[0] == x);
        assert(enc_next(s.push(x)) =~= word_bytes(x.0) + le_bytes(x.1));
    } else {
        lemma_enc_next_push(s.drop_first(), x);
        assert(s.push(x).drop_first() =~= s.drop_first().push(x));
        assert(enc_next(s.push(x)) =~= enc_next(s) + word_bytes(x.0) + le_bytes(x.1));
    }
}

pub proof fn lemma_enc_entries_push(es: Seq<((Word, Word), Seq<(Word, u32)>)>, x: ((Word, Word), Seq<(Word, u32)>))
    ensures
        enc_entries(es.push(x)) == enc_entries(es) + enc_entry(x),
    decreases es.len(),
{
    if es.len() == 0 {
        assert(es.push(x).drop_first() =~= Seq::<((Word, Word), Seq<(Word, u32)>)>::empty());
        assert(enc_entries(es.push(x).drop_first()) =~= Seq::<u8>::empty());
        assert(es.push(x)[0] == x);
        assert(enc_entries(es.push(x)) =~= enc_entry(x));
    } else {
        lemma_enc_entries_push(es.drop_first(), x);
        assert(es.push(x).drop_first() =~= es.drop_first().push(x));
        assert(enc_entries(es.push(x)) =~= enc_entries(es) + enc_entry(x));
    }
}

/// Reading four bytes back gives the number that was written.
pub proof fn lemma_read_le(x: u32, rest: Seq<u8>)
    ensures
        (le_bytes(x) + rest).len() >= 4,
        le_value(le_bytes(x) + rest) == x,
        (le_bytes(x) + rest).subrange(4, (le_bytes(x) + rest).len() as int) == rest,
{
    lemma_le_round_trip(x);
    let b = le_bytes(x) + rest;
    assert(le_value(b) == le_value(le_bytes(x)));
    assert(b.subrange(4, b.len() as int) =~= rest);
}

/// Reading a token back gives the token that was written.
pub proof fn lemma_read_word(w: Word, rest: Seq<u8>)
    ensures
        word_of_bytes(word_bytes(w) + rest) == Some(w),
        (word_bytes(w) + rest).subrange(5, (word_bytes(w) + rest).len() as int) == rest,
{
    lemma_word_round_trip(w, rest);
    assert((word_bytes(w) + rest).subrange(5, (word_bytes(w) + rest).len() as int) =~= rest);
}

/// Reading a string back gives the string that was written.
pub proof fn lemma_read_str(s: Seq<char>, rest: Seq<u8>)
    requires
        encode_utf8(s).len() <= u32::MAX,
    ensures
        ({
            let b = enc_str(s) + rest;
            let l = le_value(b) as int;
            &&& b.len() >= 4 + l
            &&& l == encode_utf8(s).len()
            &&& b.subrange(4, 4 + l) == encode_utf8(s)
            &&& b.subrange(4 + l, b.len() as int) == rest
        }),
{
    let u = encode_utf8(s);
    lemma_read_le(u.len() as u32, u + rest);
    let b = enc_str(s) + rest;
    assert(b =~= le_bytes(u.len() as u32) + (u + rest));
    assert(b.subrange(4, 4 + u.len() as int) =~= u);
    assert(b.subrange(4 + u.len() as int, b.len() as int) =~= rest);
}

} // verus!

verus! {

proof fn lemma_le_split(a: u32, b: u32, x: Seq<u8>, y: Seq<u8>)
    requires
        le_bytes(a) + x == le_bytes(b) + y,
    ensures
        a == b,
        x == y,
{
    lemma_read_le(a, x);
    lemma_read_le(b, y);
}

proof fn lemma_word_split(a: Word, b: Word, x: Seq<u8>, y: Seq<u8>)
    requires
        word_bytes(a) + x == word_bytes(b) + y,
    ensures
        a == b,
        x == y,
{
    lemma_read_word(a, x);
    lemma_read_word(b, y);
}

proof fn lemma_str_split(a: Seq<char>, b: Seq<char>, x: Seq<u8>, y: Seq<u8>)
    requires
        enc_str(a) + x == enc_str(b) + y,
        encode_utf8(a).len() <= u32::MAX,
        encode_utf8(b).len() <= u32::MAX,
    ensures
        a == b,
        x == y,
{
    lemma_read_str(a, x);
    lemma_read_str(b, y);
    assert(decode_utf8(encode_utf8(a)) == a);
    assert(decode_utf8(encode_utf8(b)) == b);
}

proof fn lemma_words_split(ws1: Seq<Seq<char>>, ws2: Seq<Seq<char>>, x: Seq<u8>, y: Seq<u8>)
    requires
        ws1.len() == ws2.len(),
        enc_words(ws1) + x == enc_words(ws2) + y,
        forall|i: int| 0 <= i < ws1.len() ==> encode_utf8(#[trigger] ws1[i]).len() <= u32::MAX,
        forall|i: int| 0 <= i < ws2.len() ==> encode_utf8(#[trigger] ws2[i]).len() <= u32::MAX,
    ensures
        ws1 == ws2,
        x == y,
    decreases ws1.len(),
{
    if ws1.len() == 0 {
        assert(enc_words(ws1) =~= Seq::<u8>::empty());
        assert(enc_words(ws2) =~= Seq::<u8>::empty());
        assert(ws1 =~= ws2);
        assert(x =~= enc_words(ws1) + x);
        assert(y =~= enc_words(ws2) + y);
    } else {
        let r1 = enc_words(ws1.drop_first()) + x;
        let r2 = enc_words(ws2.drop_first()) + y;
        assert(enc_words(ws1) + x =~= enc_str(ws1[0]) + r1);
        assert(enc_words(ws2) + y =~= enc_str(ws2[0]) + r2);
        lemma_str_split(ws1[0], ws2[0], r1, r2);
        lemma_words_split(ws1.drop_first(), ws2.drop_first(), x, y);
        assert(ws1 =~= seq![ws1[0]] + ws1.drop_first());
        assert(ws2 =~= seq![ws2[0]] + ws2.drop_first());
    }
}

proof fn lemma_next_split(s1: Seq<(Word, u32)>, s2: Seq<(Word, u32)>, x: Seq<u8>, y: Seq<u8>)
    requires
        s1.len() == s2.len(),
        enc_next(s1) + x == enc_next(s2) + y,
    ensures
        s1 == s2,
        x == y,
    decreases s1.len(),
{
    if s1.len() == 0 {
        assert(enc_next(s1) =~= Seq::<u8>::empty());
        assert(enc_next(s2) =~= Seq::<u8>::empty());
        assert(s1 =~= s2);
        assert(x =~= enc_next(s1) + x);
        assert(y =~= enc_next(s2) + y);
    } else {
        let r1 = enc_next(s1.drop_first()) + x;
        let r2 = enc_next(s2.drop_first()) + y;
        assert(enc_next(s1) + x =~= word_bytes(s1[0].0) + (le_bytes(s1[0].1) + r1));
        assert(enc_next(s2) + y =~= word_bytes(s2[0].0) + (le_bytes(s2[0].1) + r2));
        lemma_word_split(s1[0].0, s2[0].0, le_bytes(s1[0].1) + r1, le_bytes(s2[0].1) + r2);
        lemma_le_split(s1[0].1, s2[0].1, r1, r2);
        lemma_next_split(s1.drop_first(), s2.drop_first(), x, y);
        assert(s1 =~= seq![s1[0]] + s1.drop_first());
        assert(s2 =~= seq![s2[0]] + s2.drop_first());
    }
}

proof fn lemma_entry_split(
    e1: ((Word, Word), Seq<(Word, u32)>),
    e2: ((Word, Word), Seq<(Word, u32)>),
    r1: Seq<u8>,
    r2: Seq<u8>,
)
    requires
        enc_entry(e1) + r1 == enc_entry(e2) + r2,
        e1.1.len() <= u32::MAX,
        e2.1.len() <= u32::MAX,
    ensures
        e1 == e2,
        r1 == r2,
{
    let t1 = enc_next(e1.1) + r1;
    let t2 = enc_next(e2.1) + r2;
    assert(enc_entry(e1) + r1 =~= word_bytes(e1.0.0) + (word_bytes(e1.0.1) + (le_bytes(e1.1.len() as u32) + t1)));
    assert(enc_entry(e2) + r2 =~= word_bytes(e2.0.0) + (word_bytes(e2.0.1) + (le_bytes(e2.1.len() as u32) + t2)));
    lemma_word_split(e1.0.0, e2.0.0, word_bytes(e1.0.1) + (le_bytes(e1.1.len() as u32) + t1), word_bytes(e2.0.1) + (le_bytes(e2.1.len() as u32) + t2));
    lemma_word_split(e1.0.1, e2.0.1, le_bytes(e1.1.len() as u32) + t1, le_bytes(e2.1.len() as u32) + t2);
    lemma_le_split(e1.1.len() as u32, e2.1.len() as u32, t1, t2);
    lemma_next_split(e1.1, e2.1, r1, r2);
}

proof fn lemma_entries_split(
    es1: Seq<((Word, Word), Seq<(Word, u32)>)>,
    es2: Seq<((Word, Word), Seq<(Word, u32)>)>,
    x: Seq<u8>,
    y: Seq<u8>,
)
    requires
        es1.len() == es2.len(),
        enc_entries(es1) + x == enc_entries(es2) + y,
        forall|i: int| 0 <= i < es1.len() ==> (#[trigger] es1[i]).1.len() <= u32::MAX,
        forall|i: int| 0 <= i < es2.len() ==> (#[trigger] es2[i]).1.len() <= u32::MAX,
    ensures
        es1 == es2,
        x == y,
    decreases es1.len(),
{
    if es1.len() == 0 {
        assert(enc_entries(es1) =~= Seq::<u8>::empty());
        assert(enc_entries(es2) =~= Seq::<u8>::empty());
        assert(es1 =~= es2);
        assert(x =~= enc_entries(es1) + x);
        assert(y =~= enc_entries(es2) + y);
    } else {
        let e1 = es1[0];
        let e2 = es2[0];
        let r1 = enc_entries(es1.drop_first()) + x;
        let r2 = enc_entries(es2.drop_first()) + y;
        assert(enc_entries(es1) + x =~= enc_entry(e1) + r1);
        assert(enc_entries(es2) + y =~= enc_entry(e2) + r2);
        lemma_entry_split(e1, e2, r1, r2);
        lemma_entries_split(es1.drop_first(), es2.drop_first(), x, y);
        assert(es1 =~= seq![e1] + es1.drop_first());
        assert(es2 =~= seq![e2] + es2.drop_first());
    }
}

/// Two dictionaries whose counts fit the format and whose bytes are equal are equal.
pub proof fn lemma_encode_injective(d1: DictionaryV, d2: DictionaryV)
    requires
        encodable(d1),
        encodable(d2),
        encode(d1) == encode(d2),
    ensures
        d1 == d2,
{
    let t1 = le_bytes(d1.entries.len() as u32) + enc_entries(d1.entries);
    let t2 = le_bytes(d2.entries.len() as u32) + enc_entries(d2.entries);
    assert(encode(d1) =~= le_bytes(d1.words.len() as u32) + (enc_words(d1.words) + t1));
    assert(encode(d2) =~= le_bytes(d2.words.len() as u32) + (enc_words(d2.words) + t2));
    lemma_le_split(d1.words.len() as u32, d2.words.len() as u32, enc_words(d1.words) + t1, enc_words(d2.words) + t2);
    lemma_words_split(d1.words, d2.words, t1, t2);
    lemma_le_split(d1.entries.len() as u32, d2.entries.len() as u32, enc_entries(d1.entries), enc_entries(d2.entries));
    assert(enc_entries(d1.entries) + Seq::<u8>::empty() =~= enc_entries(d2.entries) + Seq::<u8>::empty());
    lemma_entries_split(d1.entries, d2.entries, Seq::<u8>::empty(), Seq::<u8>::empty());
}

} // verus!
