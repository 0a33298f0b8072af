//! Character-level text helpers: whitespace trimming, tokenization,
//! separator search and substring search, with exact specifications
//! over `Seq<char>`.

use vstd::prelude::*;

verus! {

/// The whitespace characters recognized when trimming and tokenizing.
pub open spec fn is_space(c: char) -> bool {
    c == ' ' || c == '\t' || c == '\n' || c == '\r' || c == '\x0b' || c == '\x0c'
}

/// Executable test for [`is_space`].
pub fn is_space_char(c: char) -> (r: bool)
    ensures
        r == is_space(c),
{
    c == ' ' || c == '\t' || c == '\n' || c == '\r' || c == '\x0b' || c == '\x0c'
}

/// `s` with its leading whitespace removed.
pub open spec fn ltrim(s: Seq<char>) -> Seq<char>
    decreases s.len(),
{
    if s.len() > 0 && is_space(s[0]) {
        ltrim(s.skip(1))
    } else {
        s
    }
}

/// `s` with its trailing whitespace removed.
pub open spec fn rtrim(s: Seq<char>) -> Seq<char>
    decreases s.len(),
{
    if s.len() > 0 && is_space(s[s.len() - 1]) {
        rtrim(s.take(s.len() - 1))
    } else {
        s
    }
}

/// `s` with leading and trailing whitespace removed.
pub open spec fn trim(s: Seq<char>) -> Seq<char> {
    rtrim(ltrim(s))
}

/// Trims leading and trailing whitespace from a string slice.
pub fn trim_str(s: &str) -> (r: &str)
    ensures
        r@ == trim(s@),
{
    let n: usize = s.unicode_len();
    let mut a: usize = 0;
    proof {
        assert(s@.skip(0) =~= s@);
    }
    while a < n && is_space_char(s.get_char(a))
        invariant
            a <= n,
            n == s@.len(),
            ltrim(s@) == ltrim(s@.skip(a as int)),
        decreases n - a,
    {
        proof {
            assert(s@.skip(a as int).skip(1) =~= s@.skip(a as int + 1));
        }
        a = a + 1;
    }
    proof {
        assert(ltrim(s@.skip(a as int)) == s@.skip(a as int));
    }
    let mut b: usize = n;
    while b > a && is_space_char(s.get_char(b - 1))
        invariant
            a <= b <= n,
            n == s@.len(),
            ltrim(s@) == s@.skip(a as int),
            rtrim(s@.skip(a as int)) == rtrim(s@.subrange(a as int, b as int)),
        decreases b,
    {
        proof {
            let sub = s@.subrange(a as int, b as int);
            assert(sub[sub.len() - 1] == s@[b - 1]);
            assert(sub.take(sub.len() - 1) =~= s@.subrange(a as int, b as int - 1));
        }
        b = b - 1;
    }
    proof {
        assert(rtrim(s@.subrange(a as int, b as int)) == s@.subrange(a as int, b as int));
        assert(s@.skip(a as int) =~= s@.subrange(a as int, n as int));
    }
    s.substring_char(a, b)
}

/// Character-by-character equality of two string slices.
pub fn str_eq(a: &str, b: &str) -> (r: bool)
    ensures
        r == (a@ == b@),
{
    let an: usize = a.unicode_len();
    let bn: usize = b.unicode_len();
    if an != bn {
        return false;
    }
    let mut i: usize = 0;
    while i < an
        invariant
            i <= an,
            an == a@.len(),
            an == b@.len(),
            forall|j: int| 0 <= j < i ==> a@[j] == b@[j],
        decreases an - i,
    {
        if a.get_char(i) != b.get_char(i) {
            return false;
        }
        i = i + 1;
    }
    proof {
        assert(a@ =~= b@);
    }
    true
}

/// The whitespace-separated tokens of `s`, with `cur` the partial token
/// read so far.
pub open spec fn toks(s: Seq<char>, cur: Seq<char>) -> Seq<Seq<char>>
    decreases s.len(),
{
    if s.len() == 0 {
        if cur.len() == 0 {
            Seq::empty()
        } else {
            seq![cur]
        }
    } else if is_space(s[0]) {
        if cur.len() == 0 {
            toks(s.skip(1), cur)
        } else {
            seq![cur] + toks(s.skip(1), Seq::empty())
        }
    } else {
        toks(s.skip(1), cur.push(s[0]))
    }
}

/// The whitespace-separated tokens of `s`.
pub open spec fn tokens(s: Seq<char>) -> Seq<Seq<char>> {
    toks(s, Seq::empty())
}

/// Splits a line into its whitespace-separated tokens.
pub fn line_tokens(s: &str) -> (r: Vec<String>)
    ensures
        r.deep_view() == tokens(s@),
{
    let n: usize = s.unicode_len();
    let mut out: Vec<String> = Vec::new();
    let mut i: usize = 0;
    proof {
        assert(s@.skip(0) =~= s@);
        assert(out.deep_view() + toks(s@, Seq::<char>::empty()) =~= tokens(s@));
    }
    while i < n
        invariant
            i <= n,
            n == s@.len(),
            tokens(s@) == out.deep_view() + toks(s@.skip(i as int), Seq::empty()),
        decreases n - i,
    {
        if is_space_char(s.get_char(i)) {
            proof {
                assert(s@.skip(i as int).skip(1) =~= s@.skip(i as int + 1));
            }
            i = i + 1;
        } else {
            let start: usize = i;
            let ghost whole = toks(s@.skip(start as int), Seq::<char>::empty());
            proof {
                assert(s@.subrange(start as int, i as int) =~= Seq::<char>::empty());
            }
            while i < n && !is_space_char(s.get_char(i))
                invariant
                    start <= i <= n,
                    n == s@.len(),
                    start < n,
                    !is_space(s@[start as int]),
                    whole == toks(s@.skip(start as int), Seq::<char>::empty()),
                    whole == toks(s@.skip(i as int), s@.subrange(start as int, i as int)),
                decreases n - i,
            {
                proof {
                    assert(s@.skip(i as int).skip(1) =~= s@.skip(i as int + 1));
                    assert(s@.subrange(start as int, i as int).push(s@[i as int]) =~= s@
                        .subrange(start as int, i as int + 1));
                }
                i = i + 1;
            }
            let tok: String = s.substring_char(start, i).to_owned();
            proof {
                let cur = s@.subrange(start as int, i as int);
                assert(cur.len() > 0);
                if i < n {
                    assert(s@.skip(i as int).skip(1) =~= s@.skip(i as int + 1));
                    assert(whole == seq![cur] + toks(s@.skip(i as int + 1), Seq::<char>::empty()));
                } else {
                    assert(s@.skip(i as int) =~= Seq::<char>::empty());
                    assert(whole == seq![cur]);
                    assert(whole == seq![cur] + toks(s@.skip(i as int), Seq::<char>::empty()));
                }
            }
            let ghost old_out = out.deep_view();
            out.push(tok);
            proof {
                assert(out.deep_view() =~= old_out + seq![s@.subrange(start as int, i as int)]);
                if i < n {
                    assert(out.deep_view() + toks(s@.skip(i as int + 1), Seq::<char>::empty())
                        =~= old_out + whole);
                    assert(tokens(s@) == out.deep_view() + toks(
                        s@.skip(i as int + 1),
                        Seq::<char>::empty(),
                    ));
                    assert(s@.skip(i as int).skip(1) =~= s@.skip(i as int + 1));
                    assert(toks(s@.skip(i as int), Seq::<char>::empty()) == toks(
                        s@.skip(i as int + 1),
                        Seq::<char>::empty(),
                    ));
                } else {
                    assert(out.deep_view() + toks(s@.skip(i as int), Seq::<char>::empty())
                        =~= old_out + whole);
                }
            }
            if i < n {
                i = i + 1;
            }
        }
    }
    proof {
        assert(s@.skip(n as int) =~= Seq::<char>::empty());
        assert(tokens(s@) =~= out.deep_view());
    }
    out
}

/// The index of the first occurrence of `c` in `s`, or `-1` if absent.
pub open spec fn char_index(s: Seq<char>, c: char) -> int
    decreases s.len(),
{
    if s.len() == 0 {
        -1
    } else if s[0] == c {
        0
    } else if char_index(s.skip(1), c) == -1 {
        -1
    } else {
        1 + char_index(s.skip(1), c)
    }
}

/// `char_index` never returns a value below `-1`.
pub proof fn lemma_char_index_ge(s: Seq<char>, c: char)
    ensures
        char_index(s, c) >= -1,
    decreases s.len(),
{
    if s.len() > 0 && s[0] != c {
        lemma_char_index_ge(s.skip(1), c);
    }
}

/// Splits `s` at the first occurrence of `sep`: the part before it, and,
/// when `sep` occurs, the part after it.
pub fn split_at_char(s: &str, sep: char) -> (r: (String, Option<String>))
    ensures
        char_index(s@, sep) < 0 ==> r.0@ == s@ && r.1 is None,
        char_index(s@, sep) >= 0 ==> {
            &&& r.0@ == s@.take(char_index(s@, sep))
            &&& r.1 is Some
            &&& r.1->0@ == s@.skip(char_index(s@, sep) + 1)
        },
{
    let n: usize = s.unicode_len();
    let mut i: usize = 0;
    proof {
        assert(s@.skip(0) =~= s@);
        lemma_char_index_ge(s@, sep);
    }
    while i < n
        invariant
            i <= n,
            n == s@.len(),
            char_index(s@, sep) == (if char_index(s@.skip(i as int), sep) < 0 {
                -1int
            } else {
                i + char_index(s@.skip(i as int), sep)
            }),
        decreases n - i,
    {
        if s.get_char(i) == sep {
            proof {
                assert(s@.skip(i as int)[0] == s@[i as int]);
                assert(char_index(s@, sep) == i);
            }
            let first: String = s.substring_char(0, i).to_owned();
            let second: String = s.substring_char(i + 1, n).to_owned();
            proof {
                assert(s@.subrange(0, i as int) =~= s@.take(i as int));
                assert(s@.subrange(i as int + 1, n as int) =~= s@.skip(i as int + 1));
            }
            return (first, Some(second));
        }
        proof {
            assert(s@.skip(i as int).skip(1) =~= s@.skip(i as int + 1));
            lemma_char_index_ge(s@.skip(i as int + 1), sep);
        }
        i = i + 1;
    }
    proof {
        assert(s@.skip(n as int) =~= Seq::<char>::empty());
        assert(char_index(s@, sep) < 0);
        assert(s@.take(n as int) =~= s@);
    }
    (s.to_owned(), None)
}

/// Whether `p` occurs in `h` as a contiguous subsequence.
pub open spec fn has_substring(h: Seq<char>, p: Seq<char>) -> bool {
    exists|i: int| 0 <= i && i + p.len() <= h.len() && #[trigger] h.subrange(i, i + p.len()) == p
}

/// Substring search: whether `p` occurs anywhere in `h`.
pub fn contains_str(h: &str, p: &str) -> (r: bool)
    ensures
        r == has_substring(h@, p@),
{
    let hn: usize = h.unicode_len();
    let pn: usize = p.unicode_len();
    if pn > hn {
        return false;
    }
    if pn == 0 {
        proof {
            assert(h@.subrange(0, 0 + p@.len() as int) =~= p@);
        }
        return true;
    }
    let mut i: usize = 0;
    while i <= hn - pn
        invariant
            1 <= pn <= hn,
            hn == h@.len(),
            pn == p@.len(),
            i <= hn - pn + 1,
            forall|k: int| 0 <= k < i ==> #[trigger] h@.subrange(k, k + pn) != p@,
        decreases hn - pn - i + 1,
    {
        let mut j: usize = 0;
        let mut matched: bool = true;
        while j < pn
            invariant
                i + pn <= hn,
                hn == h@.len(),
                pn == p@.len(),
                j <= pn,
                matched ==> forall|t: int| 0 <= t < j ==> h@[i + t] == p@[t],
                !matched ==> h@.subrange(i as int, i + pn) != p@,
            decreases pn - j,
        {
            if h.get_char(i + j) != p.get_char(j) {
                proof {
                    assert(h@.subrange(i as int, i + pn)[j as int] == h@[i + j]);
                }
                matched = false;
                j = pn;
            } else {
                j = j + 1;
            }
        }
        if matched {
            proof {
                assert(h@.subrange(i as int, i + pn) =~= p@);
            }
            return true;
        }
        i = i + 1;
    }
    proof {
        assert(forall|k: int| 0 <= k && k + p@.len() <= h@.len() ==> #[trigger] h@.subrange(k, k + p@.len())
            != p@);
    }
    false
}

} // verus!
