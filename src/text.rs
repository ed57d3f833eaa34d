use vstd::prelude::*;
use vstd::string::StrSliceExecFns;
use vstd::string::StringExecFns;

verus! {

/// The pieces of `s` between occurrences of `sep`, as `str::split` with a
/// one-character pattern yields them: always at least one piece, empty pieces kept.
pub open spec fn split_spec(s: Seq<char>, sep: char) -> Seq<Seq<char>>
    decreases s.len(),
{
    if s.len() == 0 {
        seq![Seq::<char>::empty()]
    } else {
        let prev = split_spec(s.drop_last(), sep);
        if s.last() == sep {
            prev.push(Seq::<char>::empty())
        } else {
            prev.update(prev.len() - 1, prev.last().push(s.last()))
        }
    }
}

/// The views of a vector of strings.
pub open spec fn views(v: Seq<String>) -> Seq<Seq<char>> {
    v.map_values(|x: String| x@)
}

/// Whether `p` is a prefix of `s`.
pub open spec fn has_prefix(s: Seq<char>, p: Seq<char>) -> bool {
    p.len() <= s.len() && s.subrange(0, p.len() as int) == p
}

/// Splits `s` at every occurrence of `sep`.
pub fn split_on(s: &str, sep: char) -> (r: Vec<String>)
    ensures
        views(r@) == split_spec(s@, sep),
{
    let n = s.unicode_len();
    let mut res: Vec<String> = Vec::new();
    let mut start: usize = 0;
    let mut i: usize = 0;
    proof {
        assert(s@.subrange(0, 0) =~= Seq::<char>::empty());
        assert(views(res@).push(s@.subrange(0, 0)) =~= split_spec(s@.subrange(0, 0), sep));
    }
    while i < n
        invariant
            n == s@.len(),
            start <= i <= n,
            views(res@).push(s@.subrange(start as int, i as int)) == split_spec(
                s@.subrange(0, i as int),
                sep,
            ),
        decreases n - i,
    {
        let c = s.get_char(i);
        let ghost prev = split_spec(s@.subrange(0, i as int), sep);
        proof {
            assert(s@.subrange(0, i + 1).drop_last() =~= s@.subrange(0, i as int));
            assert(s@.subrange(0, i + 1).last() == c);
        }
        if c == sep {
            let piece = s.substring_char(start, i).to_owned();
            let ghost before = res@;
            res.push(piece);
            proof {
                assert(views(res@) =~= views(before).push(s@.subrange(start as int, i as int)));
            }
            start = i + 1;
            proof {
                assert(s@.subrange(start as int, i + 1) =~= Seq::<char>::empty());
            }
        } else {
            proof {
                assert(s@.subrange(start as int, i + 1) =~= s@.subrange(start as int, i as int).push(c));
                assert(views(res@).push(s@.subrange(start as int, i + 1)) =~= prev.update(
                    prev.len() - 1,
                    prev.last().push(c),
                ));
            }
        }
        i = i + 1;
    }
    let last = s.substring_char(start, n).to_owned();
    let ghost before = res@;
    res.push(last);
    proof {
        assert(s@.subrange(0, n as int) =~= s@);
        assert(views(res@) =~= views(before).push(s@.subrange(start as int, n as int)));
    }
    res
}

/// Whether `s` begins with `p`.
pub fn starts_with(s: &str, p: &str) -> (r: bool)
    ensures
        r == has_prefix(s@, p@),
{
    let n = s.unicode_len();
    let m = p.unicode_len();
    if m > n {
        return false;
    }
    let mut i: usize = 0;
    while i < m
        invariant
            m <= n,
            n == s@.len(),
            m == p@.len(),
            i <= m,
            forall|j: int| 0 <= j < i ==> s@[j] == p@[j],
        decreases m - i,
    {
        if s.get_char(i) != p.get_char(i) {
            proof {
                assert(s@.subrange(0, m as int)[i as int] != p@[i as int]);
            }
            return false;
        }
        i = i + 1;
    }
    proof {
        assert(s@.subrange(0, m as int) =~= p@);
    }
    true
}

/// The characters of `s` from index `from` on.
pub fn suffix_from(s: &str, from: usize) -> (r: String)
    requires
        from <= s@.len(),
    ensures
        r@ == s@.subrange(from as int, s@.len() as int),
{
    let n = s.unicode_len();
    s.substring_char(from, n).to_owned()
}

/// The concatenation of `a` and `b`.
pub fn concat(a: &str, b: &str) -> (r: String)
    ensures
        r@ == a@ + b@,
{
    let mut r = String::from_str(a);
    r.append(b);
    r
}

} // verus!

verus! {

/// The whitespace-separated words of a text, as `str::split_whitespace` gives them.
pub uninterp spec fn words_of(s: Seq<char>) -> Seq<Seq<char>>;

/// Relies on `str::split_whitespace`: the words of `s`, in order; each word is
/// a non-empty run of characters of `s`, so there are no more words than characters.
#[verifier::external_body]
pub fn split_whitespace(s: &str) -> (r: Vec<String>)
    ensures
        views(r@) == words_of(s@),
        r@.len() <= s@.len(),
{
    s.split_whitespace().map(|w| w.to_owned()).collect()
}

} // verus!

verus! {

/// The lower-case form of a text, as `str::to_lowercase` gives it.
pub uninterp spec fn lower_of(s: Seq<char>) -> Seq<char>;

/// Relies on `str::to_lowercase`: the result depends on the characters of `s` alone.
#[verifier::external_body]
pub fn to_lowercase(s: &str) -> (r: String)
    ensures
        r@ == lower_of(s@),
{
    s.to_lowercase()
}

} // verus!

verus! {

/// Relies on `String::from_utf8`: it succeeds exactly on valid UTF-8, and then
/// holds the characters that the bytes encode.
#[verifier::external_body]
pub fn string_from_utf8(v: Vec<u8>) -> (r: Option<String>)
    ensures
        r is Some <==> vstd::utf8::valid_utf8(v@),
        r matches Some(s) ==> s@ == vstd::utf8::decode_utf8(v@),
{
    String::from_utf8(v).ok()
}

} // verus!

verus! {

/// `s` with every occurrence of `from` replaced by `to`, as `str::replace` gives it.
pub uninterp spec fn replace_all(s: Seq<char>, from: Seq<char>, to: Seq<char>) -> Seq<char>;

/// Relies on `str::replace`: the result depends on the three texts alone.
#[verifier::external_body]
pub fn replace(s: &str, from: &str, to: &str) -> (r: String)
    ensures
        r@ == replace_all(s@, from@, to@),
{
    s.replace(from, to)
}

/// Whether `s` is the text `lit`.
pub fn is_text(s: &String, lit: &str) -> (r: bool)
    ensures
        r == (s@ == lit@),
{
    let l = String::from_str(lit);
    *s == l
}

} // verus!
