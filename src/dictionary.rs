use vstd::prelude::*;

use crate::bytes::{le_bytes, le_value, lemma_le_round_trip, to_4u8, to_u32};
use crate::random::random_below;
use crate::text::{lower_of, string_from_utf8, to_lowercase};
use crate::codec::{encodable, encode, enc_entries, enc_entry, enc_next, enc_str, enc_words, lemma_enc_entries_push, lemma_enc_next_push, lemma_enc_words_push, lemma_read_le, lemma_read_str, lemma_read_word, view_wf};
use crate::text::views;
use vstd::utf8::encode_utf8;

verus! {

/// A token of the word chain: the two start markers, a word by its index in
/// the word list, and the end marker.
#[derive(Clone, Copy, Debug, PartialEq, Eq, PartialOrd, Ord, Hash, Structural)]
pub enum Word {
    Start1,
    Start2,
    Word(u32),
    End,
}

/// The five bytes of a word token: a tag, then the index for `Word`.
pub open spec fn word_bytes(w: Word) -> Seq<u8> {
    match w {
        Word::Start1 => seq![1u8, 0u8, 0u8, 0u8, 0u8],
        Word::Start2 => seq![2u8, 0u8, 0u8, 0u8, 0u8],
        Word::End => seq![0xFFu8, 0u8, 0u8, 0u8, 0u8],
        Word::Word(i) => seq![0u8] + le_bytes(i),
    }
}

/// The token that the first five bytes of `b` encode, if any.
pub open spec fn word_of_bytes(b: Seq<u8>) -> Option<Word> {
    if b.len() < 5 {
        None
    } else if b[0] == 0 {
        Some(Word::Word(le_value(b.subrange(1, 5))))
    } else if b[0] == 1 {
        Some(Word::Start1)
    } else if b[0] == 2 {
        Some(Word::Start2)
    } else if b[0] == 0xFF {
        Some(Word::End)
    } else {
        None
    }
}

pub proof fn lemma_word_round_trip(w: Word, rest: Seq<u8>)
    ensures
        word_of_bytes(word_bytes(w) + rest) == Some(w),
{
    let b = word_bytes(w) + rest;
    if let Word::Word(i) = w {
        assert(b.subrange(1, 5) =~= le_bytes(i));
        lemma_le_round_trip(i);
    }
}

/// The rank of a token in the order that `Ord` gives: start markers, words
/// by index, end marker.
pub open spec fn rank(w: Word) -> int {
    match w {
        Word::Start1 => 0,
        Word::Start2 => 1,
        Word::Word(i) => 2 + i,
        Word::End => 0x1_0000_0002,
    }
}

/// Whether `a` comes before `b`.
pub fn word_lt(a: Word, b: Word) -> (r: bool)
    ensures
        r == (rank(a) < rank(b)),
{
    match (a, b) {
        (Word::Start1, Word::Start1) => false,
        (Word::Start1, _) => true,
        (Word::Start2, Word::Start1) | (Word::Start2, Word::Start2) => false,
        (Word::Start2, _) => true,
        (Word::Word(i), Word::Word(j)) => i < j,
        (Word::Word(_), Word::End) => true,
        (Word::Word(_), _) => false,
        (Word::End, _) => false,
    }
}

impl Word {
    /// The five bytes of this token.
    pub fn into_bytes(&self) -> (r: [u8; 5])
        ensures
            r@ == word_bytes(*self),
    {
        let r = match *self {
            Word::Start1 => [1u8, 0, 0, 0, 0],
            Word::Start2 => [2u8, 0, 0, 0, 0],
            Word::End => [0xFFu8, 0, 0, 0, 0],
            Word::Word(i) => {
                let b = to_4u8(i);
                [0u8, b[0], b[1], b[2], b[3]]
            },
        };
        assert(r@ =~= word_bytes(*self));
        r
    }

    /// The token that the first five bytes of `bytes` encode; `None` when
    /// there are fewer than five or the tag is unknown.
    pub fn from_bytes(bytes: &[u8]) -> (r: Option<Word>)
        ensures
            r == word_of_bytes(bytes@),
    {
        if bytes.len() < 5 {
            return None;
        }
        match bytes[0] {
            0 => {
                let v = to_u32(&[bytes[1], bytes[2], bytes[3], bytes[4]]);
                match v {
                    Some(i) => {
                        assert(bytes@.subrange(1, 5) =~= seq![bytes@[1], bytes@[2], bytes@[3], bytes@[4]]);
                        Some(Word::Word(i))
                    },
                    None => None,
                }
            },
            1 => Some(Word::Start1),
            2 => Some(Word::Start2),
            0xFF => Some(Word::End),
            _ => None,
        }
    }
}

} // verus!

verus! {

/// The tokens that may follow one pair of tokens, with how often each did.
#[derive(Debug)]
pub struct Transitions {
    pub key: (Word, Word),
    pub next: Vec<(Word, u32)>,
}

/// A word chain learnt from lines of text: the words by index, and for each
/// pair of consecutive tokens how often each token followed it.
pub struct Dictionary {
    words: Vec<String>,
    keys: Vec<String>,
    dict: Vec<Transitions>,
}

/// The mathematical form of a dictionary.
pub struct DictionaryV {
    pub words: Seq<Seq<char>>,
    pub entries: Seq<((Word, Word), Seq<(Word, u32)>)>,
}

/// The views of the transition table.
pub open spec fn entries_view(d: Seq<Transitions>) -> Seq<((Word, Word), Seq<(Word, u32)>)> {
    d.map_values(|t: Transitions| (t.key, t.next@))
}

/// Successors in strictly ascending token order.
pub open spec fn sorted_next(s: Seq<(Word, u32)>) -> bool {
    forall|i: int, j: int| 0 <= i < j < s.len() ==> rank((#[trigger] s[i]).0) < rank((#[trigger] s[j]).0)
}

/// Whether token `w` is valid for a word list of length `n`.
pub open spec fn token_ok(w: Word, n: int) -> bool {
    match w {
        Word::Word(i) => i < n,
        _ => true,
    }
}

/// Well-formed tables: keys unique, successors sorted, word tokens in range.
pub open spec fn entries_wf(es: Seq<((Word, Word), Seq<(Word, u32)>)>, n: int) -> bool {
    &&& forall|i: int, j: int| 0 <= i < j < es.len() ==> (#[trigger] es[i]).0 != (#[trigger] es[j]).0
    &&& forall|i: int| 0 <= i < es.len() ==> sorted_next(#[trigger] es[i].1)
    &&& forall|i: int| 0 <= i < es.len() ==> token_ok((#[trigger] es[i]).0.0, n) && token_ok(es[i].0.1, n)
    &&& forall|i: int, j: int|
        0 <= i < es.len() && 0 <= j < es[i].1.len() ==> token_ok((#[trigger] es[i].1[j]).0, n)
}

impl View for Dictionary {
    type V = DictionaryV;

    closed spec fn view(&self) -> DictionaryV {
        DictionaryV { words: crate::text::views(self.words@), entries: entries_view(self.dict@) }
    }
}

impl Dictionary {
    /// The internal invariant: the lookup keys are the lower-case words, and
    /// the transition table is well formed.
    pub closed spec fn wf(&self) -> bool {
        &&& self.keys.len() == self.words.len()
        &&& forall|i: int| 0 <= i < self.keys.len() ==> (#[trigger] self.keys@[i])@ == lower_of(self.words@[i]@)
        &&& entries_wf(entries_view(self.dict@), self.words.len() as int)
    }
}

/// The index of the last word whose lower-case form is `k`, or -1.
pub open spec fn find_key(ws: Seq<Seq<char>>, k: Seq<char>) -> int
    decreases ws.len(),
{
    if ws.len() == 0 {
        -1
    } else if lower_of(ws.last()) == k {
        ws.len() - 1
    } else {
        find_key(ws.drop_last(), k)
    }
}

proof fn lemma_find_key_range(ws: Seq<Seq<char>>, k: Seq<char>)
    ensures
        -1 <= find_key(ws, k) < ws.len(),
    decreases ws.len(),
{
    if ws.len() > 0 {
        lemma_find_key_range(ws.drop_last(), k);
    }
}

/// Adding word `w`: a word with the same lower-case form keeps its index,
/// otherwise `w` is appended. Gives the new list and the word's index.
pub open spec fn insert_word_spec(ws: Seq<Seq<char>>, w: Seq<char>) -> (Seq<Seq<char>>, int) {
    let i = find_key(ws, lower_of(w));
    if i >= 0 {
        (ws, i)
    } else {
        (ws.push(w), ws.len() as int)
    }
}

/// Adding each of `toks` in turn; gives the new list and their indices.
pub open spec fn insert_all(ws: Seq<Seq<char>>, toks: Seq<Seq<char>>) -> (Seq<Seq<char>>, Seq<int>)
    decreases toks.len(),
{
    if toks.len() == 0 {
        (ws, Seq::empty())
    } else {
        let (ws1, ids) = insert_all(ws, toks.drop_last());
        let (ws2, i) = insert_word_spec(ws1, toks.last());
        (ws2, ids.push(i))
    }
}

/// The token chain of a line whose words have indices `ids`.
pub open spec fn chain_of(ids: Seq<int>) -> Seq<Word> {
    seq![Word::Start1, Word::Start2] + ids.map_values(|i: int| Word::Word(i as u32)) + seq![Word::End]
}

/// The position of the first successor not ranked below `w`.
pub open spec fn first_ge(s: Seq<(Word, u32)>, w: Word) -> int
    decreases s.len(),
{
    if s.len() == 0 {
        0
    } else if rank(s[0].0) >= rank(w) {
        0
    } else {
        1 + first_ge(s.drop_first(), w)
    }
}

/// One more occurrence of `w` among the successors `s`: its count grows by
/// one (staying at the largest `u32`), or it is inserted in order with count 1.
pub open spec fn bump_next(s: Seq<(Word, u32)>, w: Word) -> Seq<(Word, u32)> {
    let p = first_ge(s, w);
    if p < s.len() && s[p].0 == w {
        s.update(p, (w, if s[p].1 == u32::MAX { u32::MAX } else { (s[p].1 + 1) as u32 }))
    } else {
        s.insert(p, (w, 1u32))
    }
}

/// The position of the entry with key `k`, or -1.
pub open spec fn entry_pos(es: Seq<((Word, Word), Seq<(Word, u32)>)>, k: (Word, Word)) -> int
    decreases es.len(),
{
    if es.len() == 0 {
        -1
    } else if es.last().0 == k {
        es.len() - 1
    } else {
        entry_pos(es.drop_last(), k)
    }
}

/// One more occurrence of `w` after the pair `k`.
pub open spec fn bump_entries(es: Seq<((Word, Word), Seq<(Word, u32)>)>, k: (Word, Word), w: Word) -> Seq<
    ((Word, Word), Seq<(Word, u32)>),
> {
    let p = entry_pos(es, k);
    if p >= 0 {
        es.update(p, (k, bump_next(es[p].1, w)))
    } else {
        es.push((k, seq![(w, 1u32)]))
    }
}

/// The tables after counting each window of three tokens of chain `c`.
pub open spec fn learn_windows(es: Seq<((Word, Word), Seq<(Word, u32)>)>, c: Seq<Word>) -> Seq<
    ((Word, Word), Seq<(Word, u32)>),
>
    decreases c.len(),
{
    if c.len() < 3 {
        es
    } else {
        bump_entries(learn_windows(es, c.drop_last()), (c[c.len() - 3], c[c.len() - 2]), c.last())
    }
}

/// The dictionary after learning a line whose words are `toks`.
pub open spec fn learn_spec(d: DictionaryV, toks: Seq<Seq<char>>) -> DictionaryV {
    let (ws, ids) = insert_all(d.words, toks);
    DictionaryV { words: ws, entries: learn_windows(d.entries, chain_of(ids)) }
}

impl Dictionary {
    /// A well-formed dictionary has a well-formed view.
    pub proof fn lemma_view_wf(&self)
        requires
            self.wf(),
        ensures
            view_wf(self@),
    {
    }

    /// An empty dictionary.
    pub fn new() -> (r: Dictionary)
        ensures
            r.wf(),
            r@.words.len() == 0,
            r@.entries.len() == 0,
    {
        let r = Dictionary { words: Vec::new(), keys: Vec::new(), dict: Vec::new() };
        proof {
            assert(crate::text::views(r.words@) =~= Seq::<Seq<char>>::empty());
            assert(entries_view(r.dict@) =~= Seq::<((Word, Word), Seq<(Word, u32)>)>::empty());
        }
        r
    }

    /// The number of known words.
    pub fn word_count(&self) -> (r: usize)
        ensures
            r == self@.words.len(),
    {
        self.words.len()
    }

    /// Adds `word` unless a word with the same lower-case form is known;
    /// returns the index of that word.
    fn insert_word(&mut self, word: &str) -> (r: usize)
        requires
            old(self).wf(),
        ensures
            final(self).wf(),
            final(self).dict@ == old(self).dict@,
            (final(self)@.words, r as int) == insert_word_spec(old(self)@.words, word@),
    {
        let lw = to_lowercase(word);
        let ghost ws = self@.words;
        let mut i: usize = self.keys.len();
        proof {
            assert(ws.subrange(0, i as int) =~= ws);
        }
        while i > 0
            invariant
                self.wf(),
                ws == self@.words,
                lw@ == lower_of(word@),
                i <= self.keys.len(),
                find_key(ws, lw@) == find_key(ws.subrange(0, i as int), lw@),
            decreases i,
        {
            proof {
                assert(ws.subrange(0, i as int).drop_last() =~= ws.subrange(0, i - 1));
                assert(ws.subrange(0, i as int).last() == self.words@[i - 1]@);
            }
            if self.keys[i - 1] == lw {
                proof {
                    assert(ws[i - 1] == self.words@[i - 1]@);
                    assert(lower_of(ws.subrange(0, i as int).last()) == lw@);
                    assert(find_key(ws.subrange(0, i as int), lw@) == i - 1);
                    assert(find_key(ws, lower_of(word@)) == i - 1);
                    assert(insert_word_spec(ws, word@) == (ws, i - 1));
                }
                return i - 1;
            }
            i = i - 1;
        }
        proof {
            assert(ws.subrange(0, 0).len() == 0);
        }
        let ghost old_words = self.words@;
        let ghost old_keys = self.keys@;
        self.words.push(word.to_owned());
        self.keys.push(lw);
        proof {
            assert(crate::text::views(self.words@) =~= ws.push(word@));
            assert forall|i: int| 0 <= i < self.keys.len() implies (#[trigger] self.keys@[i])@ == lower_of(
                self.words@[i]@,
            ) by {
                if i < old_keys.len() {
                    assert(self.keys@[i] == old_keys[i]);
                    assert(self.words@[i] == old_words[i]);
                }
            }
            let n = self.words.len() as int;
            let es = entries_view(self.dict@);
            assert forall|i: int| 0 <= i < es.len() implies token_ok((#[trigger] es[i]).0.0, n) && token_ok(es[i].0.1, n) by {
                assert(token_ok(es[i].0.0, n - 1) && token_ok(es[i].0.1, n - 1));
            }
            assert forall|i: int, j: int| 0 <= i < es.len() && 0 <= j < es[i].1.len() implies token_ok((#[trigger] es[i].1[j]).0, n) by {
                assert(token_ok(es[i].1[j].0, n - 1));
            }
        }
        self.words.len() - 1
    }
}

} // verus!

verus! {

proof fn lemma_bump_next_tokens(s: Seq<(Word, u32)>, w: Word, n: int)
    requires
        forall|j: int| 0 <= j < s.len() ==> token_ok((#[trigger] s[j]).0, n),
        token_ok(w, n),
    ensures
        forall|j: int| 0 <= j < bump_next(s, w).len() ==> token_ok((#[trigger] bump_next(s, w)[j]).0, n),
{
    let q = first_ge(s, w);
    let r = bump_next(s, w);
    lemma_first_ge_bound(s, w);
    assert forall|j: int| 0 <= j < r.len() implies token_ok((#[trigger] r[j]).0, n) by {
        if q < s.len() && s[q].0 == w {
            if j != q {
                assert(r[j] == s[j]);
            }
        } else {
            if j < q {
                assert(r[j] == s[j]);
            } else if j > q {
                assert(r[j] == s[j - 1]);
            }
        }
    }
}

proof fn lemma_first_ge_bound(s: Seq<(Word, u32)>, w: Word)
    ensures
        0 <= first_ge(s, w) <= s.len(),
    decreases s.len(),
{
    if s.len() > 0 {
        lemma_first_ge_bound(s.drop_first(), w);
    }
}

proof fn lemma_rank_injective(a: Word, b: Word)
    ensures
        rank(a) == rank(b) ==> a == b,
{
}

/// Counts one more occurrence of `w` among the successors `next`.
fn bump_next_exec(next: &mut Vec<(Word, u32)>, w: Word)
    requires
        sorted_next(old(next)@),
    ensures
        final(next)@ == bump_next(old(next)@, w),
        sorted_next(final(next)@),
{
    let ghost s = next@;
    let n = next.len();
    let mut p: usize = 0;
    proof {
        assert(s.subrange(0, n as int) =~= s);
    }
    while p < n
        invariant
            s == next@,
            n == s.len(),
            p <= n,
            first_ge(s, w) == p + first_ge(s.subrange(p as int, n as int), w),
            forall|j: int| 0 <= j < p ==> rank((#[trigger] s[j]).0) < rank(w),
        ensures
            p <= n,
            first_ge(s, w) == p + first_ge(s.subrange(p as int, n as int), w),
            forall|j: int| 0 <= j < p ==> rank((#[trigger] s[j]).0) < rank(w),
            p == n || rank(s[p as int].0) >= rank(w),
        decreases n - p,
    {
        if !word_lt(next[p].0, w) {
            break;
        }
        proof {
            assert(s.subrange(p as int, n as int).drop_first() =~= s.subrange(p + 1, n as int));
        }
        p = p + 1;
    }
    proof {
        assert(first_ge(s, w) == p);
    }
    if p < n && next[p].0 == w {
        let c = next[p].1;
        let c2 = if c == u32::MAX {
            u32::MAX
        } else {
            c + 1
        };
        next.set(p, (w, c2));
        proof {
            assert(next@ =~= bump_next(s, w));
        }
    } else {
        next.insert(p, (w, 1u32));
        proof {
            assert(next@ =~= bump_next(s, w));
            if p < n {
                lemma_rank_injective(s[p as int].0, w);
            }
            assert forall|i: int, j: int| 0 <= i < j < next@.len() implies rank((#[trigger] next@[i]).0) < rank(
                (#[trigger] next@[j]).0,
            ) by {
                if j < p {
                } else if j == p {
                } else if i < p {
                    assert(next@[j] == s[j - 1]);
                    assert(rank(s[p as int].0) <= rank(s[j - 1].0)) by {
                        if p < j - 1 {
                            assert(rank(s[p as int].0) < rank(s[j - 1].0));
                        }
                    }
                } else if i == p {
                    assert(next@[j] == s[j - 1]);
                    assert(rank(s[p as int].0) <= rank(s[j - 1].0)) by {
                        if p < j - 1 {
                            assert(rank(s[p as int].0) < rank(s[j - 1].0));
                        }
                    }
                } else {
                    assert(next@[i] == s[i - 1]);
                    assert(next@[j] == s[j - 1]);
                }
            }
        }
    }
}

impl Dictionary {
    /// Counts one more occurrence of `w` after the pair `k`.
    fn bump(&mut self, k: (Word, Word), w: Word)
        requires
            old(self).wf(),
            token_ok(k.0, old(self).words.len() as int),
            token_ok(k.1, old(self).words.len() as int),
            token_ok(w, old(self).words.len() as int),
        ensures
            final(self).wf(),
            final(self).words == old(self).words,
            final(self).keys == old(self).keys,
            entries_view(final(self).dict@) == bump_entries(entries_view(old(self).dict@), k, w),
    {
        let ghost es = entries_view(self.dict@);
        let ghost n = self.words.len() as int;
        let mut i: usize = self.dict.len();
        proof {
            assert(es.subrange(0, i as int) =~= es);
        }
        while i > 0
            invariant
                self.wf(),
                self.words == old(self).words,
                self.keys == old(self).keys,
                self.dict@ == old(self).dict@,
                n == self.words.len(),
                token_ok(k.0, n),
                token_ok(k.1, n),
                token_ok(w, n),
                es == entries_view(self.dict@),
                i <= self.dict.len(),
                entry_pos(es, k) == entry_pos(es.subrange(0, i as int), k),
                forall|j: int| i <= j < es.len() ==> (#[trigger] es[j]).0 != k,
            decreases i,
        {
            proof {
                assert(es.subrange(0, i as int).drop_last() =~= es.subrange(0, i - 1));
            }
            if self.dict[i - 1].key.0 == k.0 && self.dict[i - 1].key.1 == k.1 {
                proof {
                    assert(entry_pos(es, k) == i - 1);
                }
                let ghost old_dict = self.dict@;
                proof {
                    assert(es[i - 1].1 == self.dict@[i - 1].next@);
                    assert(sorted_next(es[i - 1].1));
                }
                bump_next_exec(&mut self.dict[i - 1].next, w);
                proof {
                    let p = i - 1;
                    assert(entries_view(self.dict@) =~= es.update(p as int, (k, bump_next(es[p as int].1, w))));
                    let es2 = entries_view(self.dict@);
                    lemma_bump_next_tokens(es[p as int].1, w, n);
                    assert forall|a: int, b: int| 0 <= a < es2.len() && 0 <= b < es2[a].1.len() implies token_ok(
                        (#[trigger] es2[a].1[b]).0,
                        n,
                    ) by {
                        if a == p {
                            assert(es2[a].1 == bump_next(es[p as int].1, w));
                        }
                    }
                    assert forall|a: int| 0 <= a < es2.len() implies sorted_next(#[trigger] es2[a].1) by {
                        if a != p {
                            assert(es2[a] == es[a]);
                        }
                    }
                    assert forall|a: int, b: int| 0 <= a < b < es2.len() implies (#[trigger] es2[a]).0 != (#[trigger] es2[b]).0 by {
                        assert(es2[a].0 == es[a].0);
                        assert(es2[b].0 == es[b].0);
                    }
                }
                return;
            }
            i = i - 1;
        }
        proof {
            assert(entry_pos(es, k) == -1);
        }
        let mut next: Vec<(Word, u32)> = Vec::new();
        next.push((w, 1u32));
        self.dict.push(Transitions { key: k, next });
        proof {
            assert(entries_view(self.dict@) =~= es.push((k, seq![(w, 1u32)])));
        }
    }

    /// Learns the word chain of one line: each word becomes known, and each
    /// window of three tokens of start markers, the line's words and the end
    /// marker is counted.
    pub fn learn_from_line(&mut self, line: &str)
        requires
            old(self).wf(),
            old(self)@.words.len() + line@.len() < u32::MAX,
        ensures
            final(self).wf(),
            final(self)@ == learn_spec(old(self)@, crate::text::words_of(line@)),
    {
        let toks = crate::text::split_whitespace(line);
        let ghost d0 = self@;
        let ghost tv = crate::text::views(toks@);
        let mut chain: Vec<Word> = Vec::new();
        chain.push(Word::Start1);
        chain.push(Word::Start2);
        let ghost mut ids: Seq<int> = Seq::empty();
        let mut i: usize = 0;
        proof {
            assert(tv.subrange(0, 0) =~= Seq::<Seq<char>>::empty());
        }
        while i < toks.len()
            invariant
                self.wf(),
                self.dict@ == old(self).dict@,
                tv == crate::text::views(toks@),
                toks@.len() <= line@.len(),
                d0.words.len() + line@.len() < u32::MAX,
                d0 == old(self)@,
                i <= toks.len(),
                (self@.words, ids) == insert_all(d0.words, tv.subrange(0, i as int)),
                self.words.len() <= d0.words.len() + i,
                forall|j: int| 0 <= j < ids.len() ==> 0 <= #[trigger] ids[j] < self.words.len(),
                chain@ == seq![Word::Start1, Word::Start2] + ids.map_values(|x: int| Word::Word(x as u32)),
            decreases toks.len() - i,
        {
            proof {
                lemma_find_key_range(self@.words, lower_of(toks@[i as int]@));
            }
            let ghost before_len = self.words.len();
            let ghost before_ws = self@.words;
            assert(before_ws.len() == before_len);
            let idx = self.insert_word(toks[i].as_str());
            proof {
                assert(self@.words.len() == self.words.len());
                assert(self.words.len() <= before_len + 1);
                assert(idx < self.words.len());
                assert(tv.subrange(0, i + 1).drop_last() =~= tv.subrange(0, i as int));
                assert(tv.subrange(0, i + 1).last() == toks@[i as int]@);
                ids = ids.push(idx as int);
            }
            chain.push(Word::Word(idx as u32));
            proof {
                assert(chain@ =~= seq![Word::Start1, Word::Start2] + ids.map_values(|x: int| Word::Word(x as u32)));
            }
            i = i + 1;
        }
        chain.push(Word::End);
        proof {
            assert(tv.subrange(0, toks.len() as int) =~= tv);
            assert(chain@ =~= chain_of(ids));
            assert(chain@.subrange(0, 2) =~= seq![Word::Start1, Word::Start2]);
        }
        let ghost es0 = entries_view(self.dict@);
        let mut j: usize = 2;
        while j < chain.len()
            invariant
                self.wf(),
                2 <= j <= chain.len(),
                chain@ == chain_of(ids),
                forall|q: int| 0 <= q < ids.len() ==> 0 <= #[trigger] ids[q] < self.words.len(),
                (self@.words, ids) == insert_all(d0.words, tv),
                entries_view(self.dict@) == learn_windows(es0, chain@.subrange(0, j as int)),
            decreases chain.len() - j,
        {
            proof {
                let n = self.words.len() as int;
                assert forall|q: int| 0 <= q < chain.len() implies token_ok(#[trigger] chain@[q], n) by {
                    if 2 <= q < chain.len() - 1 {
                        assert(chain@[q] == Word::Word(ids[q - 2] as u32));
                    }
                }
                let c = chain@.subrange(0, j + 1);
                assert(c.drop_last() =~= chain@.subrange(0, j as int));
                assert(c[c.len() - 3] == chain@[j - 2]);
                assert(c[c.len() - 2] == chain@[j - 1]);
                assert(c.last() == chain@[j as int]);
            }
            self.bump((chain[j - 2], chain[j - 1]), chain[j]);
            j = j + 1;
        }
        proof {
            assert(chain@.subrange(0, chain.len() as int) =~= chain@);
            assert(learn_windows(es0, chain@.subrange(0, 2)) == es0);
        }
    }
}

} // verus!

verus! {

/// The sum of the counts of successors `s`.
pub open spec fn total(s: Seq<(Word, u32)>) -> int
    decreases s.len(),
{
    if s.len() == 0 {
        0
    } else {
        total(s.drop_last()) + s.last().1
    }
}

/// The successor that draw `r` picks: walking the successors in order, the
/// first whose running total of counts exceeds `r`.
pub open spec fn pick(s: Seq<(Word, u32)>, r: int) -> Option<Word>
    decreases s.len(),
{
    if s.len() == 0 {
        None
    } else if r < s[0].1 {
        Some(s[0].0)
    } else {
        pick(s.drop_first(), r - s[0].1)
    }
}

/// The successors of the pair `(w1, w2)`: empty when the pair is unknown.
pub open spec fn successors(es: Seq<((Word, Word), Seq<(Word, u32)>)>, w1: Word, w2: Word) -> Seq<(Word, u32)> {
    let p = entry_pos(es, (w1, w2));
    if p >= 0 {
        es[p].1
    } else {
        Seq::empty()
    }
}

/// Whether `c` may follow the pair `(a, b)`.
pub open spec fn follows(es: Seq<((Word, Word), Seq<(Word, u32)>)>, a: Word, b: Word, c: Word) -> bool {
    exists|j: int| 0 <= j < successors(es, a, b).len() && #[trigger] successors(es, a, b)[j].0 == c
}

/// Whether `path` is a walk of the chain from the start markers: each token
/// may follow the two before it.
pub open spec fn is_walk(es: Seq<((Word, Word), Seq<(Word, u32)>)>, path: Seq<Word>) -> bool {
    let full = seq![Word::Start1, Word::Start2] + path;
    forall|k: int| 2 <= k < full.len() ==> follows(es, full[k - 2], full[k - 1], #[trigger] full[k])
}

/// The texts of the word tokens of `path`.
pub open spec fn texts(ws: Seq<Seq<char>>, path: Seq<Word>) -> Seq<Seq<char>>
    decreases path.len(),
{
    if path.len() == 0 {
        Seq::empty()
    } else {
        let prev = texts(ws, path.drop_last());
        match path.last() {
            Word::Word(i) => prev.push(ws[i as int]),
            _ => prev,
        }
    }
}

/// Words joined by single spaces.
pub open spec fn join(ws: Seq<Seq<char>>) -> Seq<char>
    decreases ws.len(),
{
    if ws.len() == 0 {
        Seq::empty()
    } else if ws.len() == 1 {
        ws[0]
    } else {
        join(ws.drop_last()) + seq![' '] + ws.last()
    }
}

/// The longest sentence, in tokens, that one generation walks.
pub const MAX_SENTENCE_TOKENS: usize = 10000;

impl Dictionary {
    /// The successors of the pair `(w1, w2)`.
    fn successors_of(&self, w1: Word, w2: Word) -> (r: Option<&Vec<(Word, u32)>>)
        requires
            self.wf(),
        ensures
            match r {
                Some(v) => v@ == successors(self@.entries, w1, w2) && entry_pos(self@.entries, (w1, w2)) >= 0
                    && sorted_next(v@),
                None => successors(self@.entries, w1, w2) == Seq::<(Word, u32)>::empty(),
            },
    {
        let ghost es = self@.entries;
        let mut i: usize = self.dict.len();
        proof {
            assert(es.subrange(0, i as int) =~= es);
        }
        while i > 0
            invariant
                self.wf(),
                es == self@.entries,
                i <= self.dict.len(),
                entry_pos(es, (w1, w2)) == entry_pos(es.subrange(0, i as int), (w1, w2)),
            decreases i,
        {
            proof {
                assert(es.subrange(0, i as int).drop_last() =~= es.subrange(0, i - 1));
            }
            if self.dict[i - 1].key.0 == w1 && self.dict[i - 1].key.1 == w2 {
                proof {
                    assert(es[i - 1].1 == self.dict@[i - 1].next@);
                    assert(sorted_next(es[i - 1].1));
                }
                return Some(&self.dict[i - 1].next);
            }
            i = i - 1;
        }
        None
    }

    /// The successor of `(w1, w2)` that draw `draw` picks, where a draw is a
    /// number below the total count of the successors; `None` when the pair
    /// is unknown or the draw is out of range.
    pub fn choose_next(&self, w1: Word, w2: Word, draw: u128) -> (r: Option<Word>)
        requires
            self.wf(),
        ensures
            r == pick(successors(self@.entries, w1, w2), draw as int),
    {
        match self.successors_of(w1, w2) {
            None => None,
            Some(s) => {
                let mut rest: u128 = draw;
                let mut i: usize = 0;
                proof {
                    assert(s@.subrange(0, s.len() as int) =~= s@);
                }
                while i < s.len()
                    invariant
                        s@ == successors(self@.entries, w1, w2),
                        i <= s.len(),
                        rest <= draw,
                        pick(s@, draw as int) == pick(s@.subrange(i as int, s.len() as int), rest as int),
                    decreases s.len() - i,
                {
                    let c = s[i].1;
                    proof {
                        assert(s@.subrange(i as int, s.len() as int).drop_first() =~= s@.subrange(i + 1, s.len() as int));
                    }
                    if rest < c as u128 {
                        proof {
                            assert(s@.subrange(i as int, s.len() as int)[0] == s@[i as int]);
                        }
                        return Some(s[i].0);
                    }
                    rest = rest - c as u128;
                    i = i + 1;
                }
                None
            },
        }
    }

    /// The total count of the successors of `(w1, w2)`.
    fn total_of(&self, w1: Word, w2: Word) -> (r: u128)
        requires
            self.wf(),
        ensures
            r == total(successors(self@.entries, w1, w2)),
    {
        match self.successors_of(w1, w2) {
            None => 0,
            Some(s) => {
                let mut sum: u128 = 0;
                let mut i: usize = 0;
                while i < s.len()
                    invariant
                        i <= s.len(),
                        sum == total(s@.subrange(0, i as int)),
                        sum <= i * 0xFFFF_FFFF,
                    decreases s.len() - i,
                {
                    proof {
                        assert(s@.subrange(0, i + 1).drop_last() =~= s@.subrange(0, i as int));
                    }
                    sum = sum + s[i].1 as u128;
                    i = i + 1;
                }
                proof {
                    assert(s@.subrange(0, s.len() as int) =~= s@);
                }
                sum
            },
        }
    }

    /// A successor of `(w1, w2)` drawn at random, each with a chance in
    /// proportion to its count; `None` when the pair has no successor.
    fn get_next_word(&self, w1: Word, w2: Word) -> (r: Option<Word>)
        requires
            self.wf(),
        ensures
            r matches Some(w) ==> follows(self@.entries, w1, w2, w),
    {
        let sum = self.total_of(w1, w2);
        if sum == 0 {
            return None;
        }
        let draw = random_below(sum);
        let r = self.choose_next(w1, w2, draw);
        proof {
            lemma_pick_follows(successors(self@.entries, w1, w2), draw as int);
        }
        r
    }
}

proof fn lemma_pick_follows(s: Seq<(Word, u32)>, r: int)
    ensures
        pick(s, r) matches Some(w) ==> exists|j: int| 0 <= j < s.len() && #[trigger] s[j].0 == w,
    decreases s.len(),
{
    if s.len() > 0 && r >= s[0].1 {
        lemma_pick_follows(s.drop_first(), r - s[0].1);
        if let Some(w) = pick(s, r) {
            let j = choose|j: int| 0 <= j < s.drop_first().len() && #[trigger] s.drop_first()[j].0 == w;
            assert(s[j + 1].0 == w);
        }
    } else if s.len() > 0 {
        assert(s[0].0 == s[0].0);
    }
}

} // verus!

verus! {

proof fn lemma_follows_token_ok(es: Seq<((Word, Word), Seq<(Word, u32)>)>, n: int, a: Word, b: Word, c: Word)
    requires
        entries_wf(es, n),
        follows(es, a, b, c),
    ensures
        token_ok(c, n),
{
    let p = entry_pos(es, (a, b));
    lemma_entry_pos_range(es, (a, b));
    let j = choose|j: int| 0 <= j < successors(es, a, b).len() && #[trigger] successors(es, a, b)[j].0 == c;
    assert(token_ok(es[p].1[j].0, n));
}

proof fn lemma_entry_pos_range(es: Seq<((Word, Word), Seq<(Word, u32)>)>, k: (Word, Word))
    ensures
        -1 <= entry_pos(es, k) < es.len(),
    decreases es.len(),
{
    if es.len() > 0 {
        lemma_entry_pos_range(es.drop_last(), k);
    }
}

impl Dictionary {
    /// A sentence generated at random from the chain: from the start markers,
    /// successors are drawn one after another, each with a chance in
    /// proportion to its count, until the end marker, a pair without
    /// successors, or `MAX_SENTENCE_TOKENS` tokens; the words drawn are joined
    /// by single spaces.
    pub fn generate_sentence(&self) -> (r: String)
        requires
            self.wf(),
        ensures
            exists|path: Seq<Word>|
                is_walk(self@.entries, path) && path.len() <= MAX_SENTENCE_TOKENS && r@ == join(
                    #[trigger] texts(self@.words, path),
                ),
    {
        let ghost es = self@.entries;
        let ghost ws = self@.words;
        let mut w1 = Word::Start1;
        let mut w2 = Word::Start2;
        let mut result = String::new();
        let mut has_words = false;
        let ghost mut path: Seq<Word> = Seq::empty();
        let mut steps: usize = 0;
        proof {
            assert(join(texts(ws, path)) =~= result@);
        }
        while steps < MAX_SENTENCE_TOKENS
            invariant
                self.wf(),
                es == self@.entries,
                ws == self@.words,
                steps == path.len(),
                steps <= MAX_SENTENCE_TOKENS,
                is_walk(es, path),
                result@ == join(texts(ws, path)),
                has_words == (texts(ws, path).len() > 0),
                w1 == (seq![Word::Start1, Word::Start2] + path)[path.len() as int],
                w2 == (seq![Word::Start1, Word::Start2] + path)[path.len() as int + 1],
            decreases MAX_SENTENCE_TOKENS - steps,
        {
            let next = self.get_next_word(w1, w2);
            let nw = match next {
                None => break,
                Some(nw) => nw,
            };
            if nw == Word::End {
                break;
            }
            proof {
                lemma_follows_token_ok(es, self.words.len() as int, w1, w2, nw);
                let full = seq![Word::Start1, Word::Start2] + path;
                let full2 = seq![Word::Start1, Word::Start2] + path.push(nw);
                assert(full2 =~= full.push(nw));
                assert forall|k: int| 2 <= k < full2.len() implies follows(es, full2[k - 2], full2[k - 1], #[trigger] full2[k]) by {
                    if k < full.len() {
                        assert(full2[k] == full[k]);
                        assert(full2[k - 1] == full[k - 1]);
                        assert(full2[k - 2] == full[k - 2]);
                    }
                }
                assert(path.push(nw).drop_last() =~= path);
            }
            if let Word::Word(i) = nw {
                let text = &self.words[i as usize];
                proof {
                    assert(ws[i as int] == text@);
                }
                if has_words {
                    let spaced = crate::text::concat(result.as_str(), " ");
                    proof {
                        reveal_strlit(" ");
                    }
                    result = crate::text::concat(spaced.as_str(), text.as_str());
                } else {
                    result = crate::text::concat("", text.as_str());
                    proof {
                        reveal_strlit("");
                    }
                }
                has_words = true;
                proof {
                    let t = texts(ws, path);
                    assert(texts(ws, path.push(nw)) == t.push(text@));
                    assert(t.push(text@).drop_last() =~= t);
                    if t.len() == 0 {
                        assert(result@ =~= join(t.push(text@)));
                    } else {
                        assert(result@ =~= join(t.push(text@)));
                    }
                }
            }
            proof {
                path = path.push(nw);
            }
            w1 = w2;
            w2 = nw;
            steps = steps + 1;
        }
        result
    }
}

} // verus!

verus! {

fn append_bytes(out: &mut Vec<u8>, b: &[u8])
    ensures
        final(out)@ == old(out)@ + b@,
{
    let mut i: usize = 0;
    while i < b.len()
        invariant
            i <= b.len(),
            out@ == old(out)@ + b@.subrange(0, i as int),
        decreases b.len() - i,
    {
        out.push(b[i]);
        proof {
            assert(b@.subrange(0, i + 1) =~= b@.subrange(0, i as int).push(b@[i as int]));
            assert(out@ =~= old(out)@ + b@.subrange(0, i + 1));
        }
        i = i + 1;
    }
    proof {
        assert(b@.subrange(0, b.len() as int) =~= b@);
    }
}

fn append_u32(out: &mut Vec<u8>, x: u32)
    ensures
        final(out)@ == old(out)@ + le_bytes(x),
{
    let a = to_4u8(x);
    out.push(a[0]);
    out.push(a[1]);
    out.push(a[2]);
    out.push(a[3]);
    assert(out@ =~= old(out)@ + le_bytes(x));
}

fn append_word(out: &mut Vec<u8>, w: Word)
    ensures
        final(out)@ == old(out)@ + word_bytes(w),
{
    let a = w.into_bytes();
    out.push(a[0]);
    out.push(a[1]);
    out.push(a[2]);
    out.push(a[3]);
    out.push(a[4]);
    assert(out@ =~= old(out)@ + word_bytes(w));
}

impl Dictionary {
    /// The bytes of the dictionary in its file format; `None` when a count or
    /// a length does not fit in four bytes.
    pub fn to_bytes(&self) -> (r: Option<Vec<u8>>)
        requires
            self.wf(),
        ensures
            r is Some <==> encodable(self@),
            r matches Some(b) ==> b@ == encode(self@),
    {
        let ghost d = self@;
        let n = self.words.len();
        if n > 0xFFFF_FFFF {
            return None;
        }
        let mut out: Vec<u8> = Vec::new();
        append_u32(&mut out, n as u32);
        let mut i: usize = 0;
        proof {
            assert(d.words.subrange(0, 0) =~= Seq::<Seq<char>>::empty());
            assert(out@ =~= le_bytes(n as u32) + enc_words(d.words.subrange(0, 0)));
        }
        while i < n
            invariant
                d == self@,
                n == self.words.len(),
                n <= 0xFFFF_FFFF,
                i <= n,
                out@ == le_bytes(n as u32) + enc_words(d.words.subrange(0, i as int)),
                forall|j: int| 0 <= j < i ==> encode_utf8(#[trigger] d.words[j]).len() <= u32::MAX,
            decreases n - i,
        {
            let b = self.words[i].as_str().as_bytes();
            proof {
                assert(d.words[i as int] == self.words@[i as int]@);
            }
            if b.len() > 0xFFFF_FFFF {
                return None;
            }
            append_u32(&mut out, b.len() as u32);
            append_bytes(&mut out, b);
            proof {
                lemma_enc_words_push(d.words.subrange(0, i as int), d.words[i as int]);
                assert(d.words.subrange(0, i + 1) =~= d.words.subrange(0, i as int).push(d.words[i as int]));
                assert(out@ =~= le_bytes(n as u32) + enc_words(d.words.subrange(0, i + 1)));
            }
            i = i + 1;
        }
        proof {
            assert(d.words.subrange(0, n as int) =~= d.words);
        }
        let m = self.dict.len();
        if m > 0xFFFF_FFFF {
            return None;
        }
        append_u32(&mut out, m as u32);
        let ghost head = out@;
        let mut k: usize = 0;
        proof {
            assert(d.entries.subrange(0, 0) =~= Seq::<((Word, Word), Seq<(Word, u32)>)>::empty());
            assert(out@ =~= head + enc_entries(d.entries.subrange(0, 0)));
        }
        while k < m
            invariant
                d == self@,
                m == self.dict.len(),
                m <= 0xFFFF_FFFF,
                k <= m,
                head == le_bytes(n as u32) + enc_words(d.words) + le_bytes(m as u32),
                out@ == head + enc_entries(d.entries.subrange(0, k as int)),
                forall|j: int| 0 <= j < k ==> (#[trigger] d.entries[j]).1.len() <= u32::MAX,
            decreases m - k,
        {
            let t = &self.dict[k];
            proof {
                assert(d.entries[k as int] == (t.key, t.next@));
            }
            if t.next.len() > 0xFFFF_FFFF {
                return None;
            }
            let ghost before = out@;
            append_word(&mut out, t.key.0);
            append_word(&mut out, t.key.1);
            append_u32(&mut out, t.next.len() as u32);
            let ghost mid = out@;
            let mut q: usize = 0;
            proof {
                assert(t.next@.subrange(0, 0) =~= Seq::<(Word, u32)>::empty());
                assert(out@ =~= mid + enc_next(t.next@.subrange(0, 0)));
            }
            while q < t.next.len()
                invariant
                    q <= t.next.len(),
                    out@ == mid + enc_next(t.next@.subrange(0, q as int)),
                decreases t.next.len() - q,
            {
                let (w, c) = t.next[q];
                append_word(&mut out, w);
                append_u32(&mut out, c);
                proof {
                    lemma_enc_next_push(t.next@.subrange(0, q as int), (w, c));
                    assert(t.next@.subrange(0, q + 1) =~= t.next@.subrange(0, q as int).push((w, c)));
                    assert(out@ =~= mid + enc_next(t.next@.subrange(0, q + 1)));
                }
                q = q + 1;
            }
            proof {
                assert(t.next@.subrange(0, t.next.len() as int) =~= t.next@);
                assert(out@ =~= before + enc_entry(d.entries[k as int]));
                lemma_enc_entries_push(d.entries.subrange(0, k as int), d.entries[k as int]);
                assert(d.entries.subrange(0, k + 1) =~= d.entries.subrange(0, k as int).push(d.entries[k as int]));
                assert(out@ =~= head + enc_entries(d.entries.subrange(0, k + 1)));
            }
            k = k + 1;
        }
        proof {
            assert(d.entries.subrange(0, m as int) =~= d.entries);
            assert(out@ =~= encode(d));
        }
        Some(out)
    }
}

} // verus!

verus! {

broadcast use vstd::utf8::encode_utf8_decode_utf8, vstd::utf8::encode_utf8_valid_utf8;

/// The length that a string record starting `b` announces.
pub open spec fn str_len(b: Seq<u8>) -> int {
    le_value(b) as int
}

/// Whether `b` starts with a complete string record of valid UTF-8.
pub open spec fn has_str(b: Seq<u8>) -> bool {
    b.len() >= 4 && b.len() >= 4 + str_len(b) && vstd::utf8::valid_utf8(b.subrange(4, 4 + str_len(b)))
}

/// A cursor over bytes.
struct ByteReader<'a> {
    bytes: &'a [u8],
    cursor: usize,
}

impl<'a> ByteReader<'a> {
    spec fn rest(&self) -> Seq<u8> {
        self.bytes@.subrange(self.cursor as int, self.bytes@.len() as int)
    }

    spec fn ok(&self) -> bool {
        self.cursor <= self.bytes@.len()
    }

    fn new(bytes: &'a [u8]) -> (r: ByteReader<'a>)
        ensures
            r.ok(),
            r.rest() == bytes@,
            r.bytes == bytes,
    {
        let r = ByteReader { bytes, cursor: 0 };
        assert(r.rest() =~= bytes@);
        r
    }

    fn read_u32(&mut self) -> (r: Option<u32>)
        requires
            old(self).ok(),
        ensures
            final(self).ok(),
            final(self).bytes == old(self).bytes,
            old(self).rest().len() < 4 ==> r is None,
            r is Some ==> final(self).cursor == old(self).cursor + 4,
            old(self).rest().len() >= 4 ==> r == Some(le_value(old(self).rest())) && final(self).rest()
                == old(self).rest().subrange(4, old(self).rest().len() as int),
    {
        if self.bytes.len() - self.cursor < 4 {
            return None;
        }
        let c = self.cursor;
        let r = to_u32(&[self.bytes[c], self.bytes[c + 1], self.bytes[c + 2], self.bytes[c + 3]]);
        self.cursor = c + 4;
        proof {
            assert(self.rest() =~= old(self).rest().subrange(4, old(self).rest().len() as int));
        }
        r
    }

    fn read_word(&mut self) -> (r: Option<Word>)
        requires
            old(self).ok(),
        ensures
            final(self).ok(),
            final(self).bytes == old(self).bytes,
            r == word_of_bytes(old(self).rest()),
            r is Some ==> final(self).cursor == old(self).cursor + 5,
            r is Some ==> final(self).rest() == old(self).rest().subrange(5, old(self).rest().len() as int),
    {
        if self.bytes.len() - self.cursor < 5 {
            return None;
        }
        let c = self.cursor;
        let r = Word::from_bytes(&[self.bytes[c], self.bytes[c + 1], self.bytes[c + 2], self.bytes[c + 3], self.bytes[c + 4]]);
        proof {
            let a = seq![self.bytes@[c as int], self.bytes@[c + 1], self.bytes@[c + 2], self.bytes@[c + 3], self.bytes@[c + 4]];
            assert(a.subrange(1, 5) =~= old(self).rest().subrange(1, 5));
        }
        if r.is_some() {
            self.cursor = c + 5;
            proof {
                assert(self.rest() =~= old(self).rest().subrange(5, old(self).rest().len() as int));
            }
        }
        r
    }

    fn read_string(&mut self) -> (r: Option<String>)
        requires
            old(self).ok(),
        ensures
            final(self).ok(),
            final(self).bytes == old(self).bytes,
            !has_str(old(self).rest()) ==> r is None,
            has_str(old(self).rest()) ==> (r matches Some(s) && s@ == vstd::utf8::decode_utf8(
                old(self).rest().subrange(4, 4 + str_len(old(self).rest())),
            ) && final(self).rest() == old(self).rest().subrange(
                4 + str_len(old(self).rest()),
                old(self).rest().len() as int,
            )),
    {
        let ghost b = self.rest();
        let ghost c0 = self.cursor;
        let len = match self.read_u32() {
            Some(l) => l as usize,
            None => return None,
        };
        proof {
            assert(len as int == str_len(b));
            assert(self.cursor == c0 + 4);
        }
        if self.bytes.len() - self.cursor < len {
            return None;
        }
        let start = self.cursor;
        let end: usize = start + len;
        let mut v: Vec<u8> = Vec::new();
        let mut i: usize = 0;
        while i < len
            invariant
                start + len <= self.bytes@.len(),
                end == start + len,
                start == c0 + 4,
                b == self.bytes@.subrange(c0 as int, self.bytes@.len() as int),
                i <= len,
                v@ == self.bytes@.subrange(start as int, start + i),
            decreases len - i,
        {
            v.push(self.bytes[start + i]);
            proof {
                assert(v@ =~= self.bytes@.subrange(start as int, start + i + 1));
            }
            i = i + 1;
        }
        proof {
            assert(v@ =~= b.subrange(4, 4 + str_len(b)));
        }
        let s = string_from_utf8(v);
        if s.is_some() {
            self.cursor = start + len;
            proof {
                assert(self.rest() =~= b.subrange(4 + str_len(b), b.len() as int));
            }
        }
        s
    }
}

fn token_ok_exec(w: Word, n: usize) -> (r: bool)
    ensures
        r == token_ok(w, n as int),
{
    match w {
        Word::Word(i) => (i as usize) < n,
        _ => true,
    }
}

/// Sets the count of successor `w` to `c`, keeping the successors sorted.
fn put_next(next: &mut Vec<(Word, u32)>, w: Word, c: u32)
    requires
        sorted_next(old(next)@),
    ensures
        sorted_next(final(next)@),
        forall|j: int| 0 <= j < final(next)@.len() ==> (#[trigger] final(next)@[j]).0 == w || exists|q: int|
            0 <= q < old(next)@.len() && old(next)@[q].0 == final(next)@[j].0,
        (forall|j: int| 0 <= j < old(next)@.len() ==> rank((#[trigger] old(next)@[j]).0) < rank(w)) ==> final(next)@
            == old(next)@.push((w, c)),
{
    let ghost s = next@;
    let n = next.len();
    let mut p: usize = 0;
    while p < n
        invariant
            s == next@,
            n == s.len(),
            p <= n,
            forall|j: int| 0 <= j < p ==> rank((#[trigger] s[j]).0) < rank(w),
        ensures
            p <= n,
            forall|j: int| 0 <= j < p ==> rank((#[trigger] s[j]).0) < rank(w),
            p == n || rank(s[p as int].0) >= rank(w),
        decreases n - p,
    {
        if !word_lt(next[p].0, w) {
            break;
        }
        p = p + 1;
    }
    if p < n && next[p].0 == w {
        next.set(p, (w, c));
        proof {
            assert forall|j: int| 0 <= j < next@.len() implies (#[trigger] next@[j]).0 == w || exists|q: int|
                0 <= q < s.len() && s[q].0 == next@[j].0 by {
                if j != p {
                    assert(s[j].0 == next@[j].0);
                }
            }
        }
    } else {
        next.insert(p, (w, c));
        proof {
            if p < n {
                lemma_rank_injective(s[p as int].0, w);
            }
            assert forall|i: int, j: int| 0 <= i < j < next@.len() implies rank((#[trigger] next@[i]).0) < rank(
                (#[trigger] next@[j]).0,
            ) by {
                if j < p {
                } else if j == p {
                } else if i <= p {
                    assert(next@[j] == s[j - 1]);
                    assert(rank(s[p as int].0) <= rank(s[j - 1].0)) by {
                        if p < j - 1 {
                            assert(rank(s[p as int].0) < rank(s[j - 1].0));
                        }
                    }
                } else {
                    assert(next@[i] == s[i - 1]);
                    assert(next@[j] == s[j - 1]);
                }
            }
            assert forall|j: int| 0 <= j < next@.len() implies (#[trigger] next@[j]).0 == w || exists|q: int|
                0 <= q < s.len() && s[q].0 == next@[j].0 by {
                if j < p {
                    assert(s[j].0 == next@[j].0);
                } else if j > p {
                    assert(s[j - 1].0 == next@[j].0);
                }
            }
            if forall|j: int| 0 <= j < s.len() ==> rank((#[trigger] s[j]).0) < rank(w) {
                assert(p == n);
                assert(next@ =~= s.push((w, c)));
            }
        }
    }
}

} // verus!

verus! {

/// Sets the successors of pair `k`, replacing those it had.
fn put_entry(dict: &mut Vec<Transitions>, k: (Word, Word), next: Vec<(Word, u32)>, Ghost(n): Ghost<int>)
    requires
        entries_wf(entries_view(old(dict)@), n),
        sorted_next(next@),
        token_ok(k.0, n),
        token_ok(k.1, n),
        forall|j: int| 0 <= j < next@.len() ==> token_ok((#[trigger] next@[j]).0, n),
    ensures
        entries_wf(entries_view(final(dict)@), n),
        (forall|j: int|
            0 <= j < old(dict)@.len() ==> (#[trigger] entries_view(old(dict)@)[j]).0 != k) ==> entries_view(
            final(dict)@,
        ) == entries_view(old(dict)@).push((k, next@)),
{
    let ghost es = entries_view(dict@);
    let mut i: usize = dict.len();
    while i > 0
        invariant
            i <= dict.len(),
            dict@ == old(dict)@,
            es == entries_view(dict@),
            entries_wf(es, n),
            sorted_next(next@),
            token_ok(k.0, n),
            token_ok(k.1, n),
            forall|j: int| 0 <= j < next@.len() ==> token_ok((#[trigger] next@[j]).0, n),
            forall|j: int| i <= j < es.len() ==> (#[trigger] es[j]).0 != k,
        decreases i,
    {
        if dict[i - 1].key.0 == k.0 && dict[i - 1].key.1 == k.1 {
            let ghost nv = next@;
            dict.set(i - 1, Transitions { key: k, next });
            proof {
                let p = i - 1;
                assert(es[p as int].0 == k);
                let es2 = entries_view(dict@);
                assert(es2 =~= es.update(p as int, (k, nv)));
                assert forall|a: int, b: int| 0 <= a < b < es2.len() implies (#[trigger] es2[a]).0 != (#[trigger] es2[b]).0 by {
                    assert(es2[a].0 == es[a].0);
                    assert(es2[b].0 == es[b].0);
                }
                assert forall|a: int| 0 <= a < es2.len() implies sorted_next(#[trigger] es2[a].1) by {
                    if a != p {
                        assert(es2[a] == es[a]);
                    }
                }
                assert forall|a: int| 0 <= a < es2.len() implies token_ok((#[trigger] es2[a]).0.0, n) && token_ok(
                    es2[a].0.1,
                    n,
                ) by {
                    if a != p {
                        assert(es2[a] == es[a]);
                    }
                }
                assert forall|a: int, b: int| 0 <= a < es2.len() && 0 <= b < es2[a].1.len() implies token_ok(
                    (#[trigger] es2[a].1[b]).0,
                    n,
                ) by {
                    if a != p {
                        assert(es2[a] == es[a]);
                    }
                }
            }
            return;
        }
        proof {
            assert(es[i - 1].0 != k);
        }
        i = i - 1;
    }
    let ghost nv = next@;
    dict.push(Transitions { key: k, next });
    proof {
        let es2 = entries_view(dict@);
        assert(es2 =~= es.push((k, nv)));
        assert forall|a: int, b: int| 0 <= a < b < es2.len() implies (#[trigger] es2[a]).0 != (#[trigger] es2[b]).0 by {
            if b == es.len() {
                assert(es2[a] == es[a]);
            } else {
                assert(es2[a] == es[a]);
                assert(es2[b] == es[b]);
            }
        }
        assert forall|a: int| 0 <= a < es2.len() implies sorted_next(#[trigger] es2[a].1) by {
            if a < es.len() {
                assert(es2[a] == es[a]);
            }
        }
        assert forall|a: int| 0 <= a < es2.len() implies token_ok((#[trigger] es2[a]).0.0, n) && token_ok(es2[a].0.1, n) by {
            if a < es.len() {
                assert(es2[a] == es[a]);
            }
        }
        assert forall|a: int, b: int| 0 <= a < es2.len() && 0 <= b < es2[a].1.len() implies token_ok(
            (#[trigger] es2[a].1[b]).0,
            n,
        ) by {
            if a < es.len() {
                assert(es2[a] == es[a]);
            }
        }
    }
}

} // verus!

verus! {

/// Whether `b` is the file form of some well-formed dictionary.
pub open spec fn is_encoding(b: Seq<u8>) -> bool {
    exists|d: DictionaryV| view_wf(d) && encodable(d) && #[trigger] encode(d) == b
}

impl Dictionary {
    /// Reads a dictionary from its file format. Gives `None` when the bytes
    /// end early, hold a string that is not UTF-8 or an unknown token tag, or
    /// name a word that the word list lacks. Where a pair or a successor
    /// occurs twice, the later one counts.
    pub fn from_bytes(bytes: &[u8]) -> (r: Option<Dictionary>)
        ensures
            r matches Some(x) ==> x.wf(),
            forall|d: DictionaryV|
                view_wf(d) && encodable(d) && #[trigger] encode(d) == bytes@ ==> (r matches Some(x) && x@ == d),
    {
        let ghost valid = is_encoding(bytes@);
        let ghost d = choose|d: DictionaryV| view_wf(d) && encodable(d) && #[trigger] encode(d) == bytes@;
        let ghost nw = d.words.len();
        let ghost ne = d.entries.len();
        let ghost tail = le_bytes(ne as u32) + enc_entries(d.entries);
        let mut reader = ByteReader::new(bytes);
        proof {
            if valid {
                lemma_read_le(nw as u32, enc_words(d.words) + tail);
                assert(encode(d) =~= le_bytes(nw as u32) + (enc_words(d.words) + tail));
            }
        }
        let num_words = match reader.read_u32() {
            Some(n) => n,
            None => return None,
        };
        let mut words: Vec<String> = Vec::new();
        let mut keys: Vec<String> = Vec::new();
        let mut i: u32 = 0;
        proof {
            if valid {
                assert(d.words.subrange(0, nw as int) =~= d.words);
                assert(views(words@) =~= d.words.subrange(0, 0));
            }
        }
        while i < num_words
            invariant
                valid == is_encoding(bytes@),
                reader.ok(),
                reader.bytes == bytes,
                words.len() == i,
                keys.len() == i,
                i <= num_words,
                forall|j: int| 0 <= j < i ==> (#[trigger] keys@[j])@ == lower_of(words@[j]@),
                valid ==> view_wf(d) && encodable(d) && encode(d) == bytes@,
                valid ==> num_words == nw,
                valid ==> views(words@) == d.words.subrange(0, i as int),
                valid ==> reader.rest() == enc_words(d.words.subrange(i as int, nw as int)) + tail,
                nw == d.words.len(),
                tail == le_bytes(ne as u32) + enc_entries(d.entries),
            decreases num_words - i,
        {
            proof {
                if valid {
                    let sub = d.words.subrange(i as int, nw as int);
                    assert(sub.drop_first() =~= d.words.subrange(i + 1, nw as int));
                    assert(sub[0] == d.words[i as int]);
                    assert(encode_utf8(d.words[i as int]).len() <= u32::MAX);
                    lemma_read_str(d.words[i as int], enc_words(d.words.subrange(i + 1, nw as int)) + tail);
                    assert(reader.rest() =~= enc_str(d.words[i as int]) + (enc_words(d.words.subrange(i + 1, nw as int)) + tail));
                    assert(has_str(reader.rest()));
                }
            }
            let w = match reader.read_string() {
                Some(w) => w,
                None => return None,
            };
            let lw = to_lowercase(w.as_str());
            let ghost before_w = words@;
            let ghost before_k = keys@;
            keys.push(lw);
            words.push(w);
            proof {
                assert forall|j: int| 0 <= j < i + 1 implies (#[trigger] keys@[j])@ == lower_of(words@[j]@) by {
                    if j < i {
                        assert(keys@[j] == before_k[j]);
                        assert(words@[j] == before_w[j]);
                    }
                }
                if valid {
                    assert(views(words@) =~= d.words.subrange(0, i + 1));
                }
            }
            i = i + 1;
        }
        proof {
            if valid {
                assert(d.words.subrange(nw as int, nw as int) =~= Seq::<Seq<char>>::empty());
                assert(enc_words(Seq::<Seq<char>>::empty()) =~= Seq::<u8>::empty());
                assert(reader.rest() =~= tail);
                lemma_read_le(ne as u32, enc_entries(d.entries));
                assert(views(words@) =~= d.words);
            }
        }
        let n = words.len();
        let num_entries = match reader.read_u32() {
            Some(m) => m,
            None => return None,
        };
        let mut dict: Vec<Transitions> = Vec::new();
        let mut k: u32 = 0;
        proof {
            assert(entries_view(dict@) =~= Seq::<((Word, Word), Seq<(Word, u32)>)>::empty());
            if valid {
                assert(d.entries.subrange(0, ne as int) =~= d.entries);
                assert(entries_view(dict@) =~= d.entries.subrange(0, 0));
            }
        }
        while k < num_entries
            invariant
                valid == is_encoding(bytes@),
                reader.ok(),
                reader.bytes == bytes,
                n == words.len(),
                keys.len() == n,
                forall|j: int| 0 <= j < n ==> (#[trigger] keys@[j])@ == lower_of(words@[j]@),
                entries_wf(entries_view(dict@), n as int),
                k <= num_entries,
                valid ==> view_wf(d) && encodable(d),
                valid ==> views(words@) == d.words && n == nw,
                valid ==> num_entries == ne,
                valid ==> entries_view(dict@) == d.entries.subrange(0, k as int),
                valid ==> reader.rest() == enc_entries(d.entries.subrange(k as int, ne as int)),
                ne == d.entries.len(),
                nw == d.words.len(),
            decreases num_entries - k,
        {
            let ghost e = d.entries[k as int];
            let ghost after = enc_entries(d.entries.subrange(k + 1, ne as int));
            proof {
                if valid {
                    let sub = d.entries.subrange(k as int, ne as int);
                    assert(sub.drop_first() =~= d.entries.subrange(k + 1, ne as int));
                    assert(sub[0] == e);
                    assert(reader.rest() =~= word_bytes(e.0.0) + (word_bytes(e.0.1) + (le_bytes(e.1.len() as u32) + (enc_next(e.1) + after))));
                    lemma_read_word(e.0.0, word_bytes(e.0.1) + (le_bytes(e.1.len() as u32) + (enc_next(e.1) + after)));
                    lemma_read_word(e.0.1, le_bytes(e.1.len() as u32) + (enc_next(e.1) + after));
                    lemma_read_le(e.1.len() as u32, enc_next(e.1) + after);
                    assert(word_of_bytes(reader.rest()) == Some(e.0.0));
                    assert(token_ok(e.0.0, n as int) && token_ok(e.0.1, n as int));
                }
            }
            let w1 = match reader.read_word() {
                Some(w) => w,
                None => return None,
            };
            proof {
                if valid {
                    assert(w1 == e.0.0);
                    assert(word_of_bytes(reader.rest()) == Some(e.0.1));
                }
            }
            let w2 = match reader.read_word() {
                Some(w) => w,
                None => return None,
            };
            proof {
                if valid {
                    assert(w2 == e.0.1);
                    assert(reader.rest().len() >= 4);
                }
            }
            let num_results = match reader.read_u32() {
                Some(c) => c,
                None => return None,
            };
            let mut next: Vec<(Word, u32)> = Vec::new();
            let mut q: u32 = 0;
            proof {
                if valid {
                    assert(e.1.subrange(0, e.1.len() as int) =~= e.1);
                    assert(next@ =~= e.1.subrange(0, 0));
                }
            }
            while q < num_results
                invariant
                    valid == is_encoding(bytes@),
                    reader.ok(),
                    reader.bytes == bytes,
                    q <= num_results,
                    sorted_next(next@),
                    forall|j: int| 0 <= j < next@.len() ==> token_ok((#[trigger] next@[j]).0, n as int),
                    valid ==> view_wf(d) && encodable(d) && n == nw,
                    valid ==> num_results == e.1.len(),
                    valid ==> next@ == e.1.subrange(0, q as int),
                    valid ==> reader.rest() == enc_next(e.1.subrange(q as int, e.1.len() as int)) + after,
                    valid ==> sorted_next(e.1),
                    valid ==> forall|j: int| 0 <= j < e.1.len() ==> token_ok((#[trigger] e.1[j]).0, n as int),
                decreases num_results - q,
            {
                proof {
                    if valid {
                        let sub = e.1.subrange(q as int, e.1.len() as int);
                        assert(sub.drop_first() =~= e.1.subrange(q + 1, e.1.len() as int));
                        assert(sub[0] == e.1[q as int]);
                        let rest2 = enc_next(e.1.subrange(q + 1, e.1.len() as int)) + after;
                        assert(reader.rest() =~= word_bytes(e.1[q as int].0) + (le_bytes(e.1[q as int].1) + rest2));
                        lemma_read_word(e.1[q as int].0, le_bytes(e.1[q as int].1) + rest2);
                        lemma_read_le(e.1[q as int].1, rest2);
                        assert(word_of_bytes(reader.rest()) == Some(e.1[q as int].0));
                    }
                }
                let w = match reader.read_word() {
                    Some(w) => w,
                    None => return None,
                };
                proof {
                    if valid {
                        assert(w == e.1[q as int].0);
                        assert(token_ok(w, n as int));
                        assert(reader.rest().len() >= 4);
                    }
                }
                let c = match reader.read_u32() {
                    Some(c) => c,
                    None => return None,
                };
                if !token_ok_exec(w, n) {
                    return None;
                }
                let ghost before = next@;
                put_next(&mut next, w, c);
                proof {
                    assert forall|j: int| 0 <= j < next@.len() implies token_ok((#[trigger] next@[j]).0, n as int) by {
                        if next@[j].0 != w {
                            let q2 = choose|q2: int| 0 <= q2 < before.len() && before[q2].0 == next@[j].0;
                            assert(token_ok(before[q2].0, n as int));
                        }
                    }
                    if valid {
                        assert forall|j: int| 0 <= j < before.len() implies rank((#[trigger] before[j]).0) < rank(w) by {
                            assert(before[j] == e.1[j]);
                        }
                        assert(next@ =~= e.1.subrange(0, q + 1));
                    }
                }
                q = q + 1;
            }
            if !token_ok_exec(w1, n) || !token_ok_exec(w2, n) {
                return None;
            }
            proof {
                if valid {
                    assert(next@ =~= e.1);
                    assert(e.1.subrange(e.1.len() as int, e.1.len() as int) =~= Seq::<(Word, u32)>::empty());
                    assert(enc_next(Seq::<(Word, u32)>::empty()) =~= Seq::<u8>::empty());
                    assert(reader.rest() =~= after);
                    assert forall|j: int| 0 <= j < dict@.len() implies (#[trigger] entries_view(dict@)[j]).0 != (w1, w2) by {
                        assert(entries_view(dict@)[j] == d.entries[j]);
                    }
                }
            }
            put_entry(&mut dict, (w1, w2), next, Ghost(n as int));
            proof {
                if valid {
                    assert(entries_view(dict@) =~= d.entries.subrange(0, k + 1));
                }
            }
            k = k + 1;
        }
        let r = Dictionary { words, keys, dict };
        proof {
            if valid {
                assert(entries_view(r.dict@) =~= d.entries);
                assert(r@ == d);
            }
            assert forall|d2: DictionaryV|
                view_wf(d2) && encodable(d2) && #[trigger] encode(d2) == bytes@ implies r@ == d2 by {
                assert(valid);
                crate::codec::lemma_encode_injective(d, d2);
            }
        }
        Some(r)
    }
}

} // verus!

verus! {

/// Round trip of the file format: the bytes of a well-formed dictionary whose
/// counts fit the format are a valid encoding, and the only dictionary they
/// encode is that dictionary; so reading back what `to_bytes` wrote with
/// `from_bytes` gives the same words and the same transition table.
pub proof fn lemma_round_trip(d: DictionaryV)
    requires
        view_wf(d),
        encodable(d),
    ensures
        is_encoding(encode(d)),
        forall|x: DictionaryV| view_wf(x) && encodable(x) && #[trigger] encode(x) == encode(d) ==> x == d,
{
    assert forall|x: DictionaryV| view_wf(x) && encodable(x) && #[trigger] encode(x) == encode(d) implies x == d by {
        crate::codec::lemma_encode_injective(x, d);
    }
}

} // verus!
