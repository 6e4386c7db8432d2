//! Word-level text utilities: whitespace tokenization and string comparison.

use vstd::prelude::*;

verus! {

/// The characters that separate words in training text.
pub open spec fn is_space(c: char) -> bool {
    c == ' ' || c == '\t' || c == '\n' || c == '\r'
}

/// Length of the maximal run of non-separator characters at the front of `s`.
pub open spec fn run_len(s: Seq<char>) -> nat
    decreases s.len(),
{
    if s.len() == 0 || is_space(s[0]) {
        0
    } else {
        1 + run_len(s.drop_first())
    }
}

pub proof fn lemma_run_len(s: Seq<char>)
    ensures
        run_len(s) <= s.len(),
        forall|i: int| 0 <= i < run_len(s) ==> !is_space(#[trigger] s[i]),
        run_len(s) < s.len() ==> is_space(s[run_len(s) as int]),
        s.len() > 0 && !is_space(s[0]) ==> run_len(s) >= 1,
    decreases s.len(),
{
    if s.len() == 0 || is_space(s[0]) {
    } else {
        lemma_run_len(s.drop_first());
        assert forall|i: int| 0 <= i < run_len(s) implies !is_space(#[trigger] s[i]) by {
            if i > 0 {
                assert(s.drop_first()[i - 1] == s[i]);
            }
        }
        if run_len(s) < s.len() {
            assert(s.drop_first()[run_len(s) - 1] == s[run_len(s) as int]);
        }
    }
}

/// A position `m` bounds the front run exactly when everything before it is
/// solid and it either ends the string or lands on a separator.
pub proof fn lemma_run_len_is(s: Seq<char>, m: int)
    requires
        0 <= m <= s.len(),
        forall|i: int| 0 <= i < m ==> !is_space(#[trigger] s[i]),
        m == s.len() || is_space(s[m]),
    ensures
        run_len(s) == m,
    decreases s.len(),
{
    if m == 0 {
    } else {
        assert(!is_space(s[0]));
        assert forall|i: int| 0 <= i < m - 1 implies !is_space(#[trigger] s.drop_first()[i]) by {
            assert(s.drop_first()[i] == s[i + 1]);
        }
        if m < s.len() {
            assert(s.drop_first()[m - 1] == s[m]);
        }
        lemma_run_len_is(s.drop_first(), m - 1);
    }
}

/// The whitespace-delimited words of `s`, in order: the maximal runs of
/// non-separator characters.
pub open spec fn split_ws(s: Seq<char>) -> Seq<Seq<char>>
    decreases s.len(),
    via split_ws_dec
{
    if s.len() == 0 {
        Seq::empty()
    } else if is_space(s[0]) {
        split_ws(s.drop_first())
    } else {
        seq![s.take(run_len(s) as int)] + split_ws(s.skip(run_len(s) as int))
    }
}

#[via_fn]
proof fn split_ws_dec(s: Seq<char>) {
    if s.len() > 0 && !is_space(s[0]) {
        lemma_run_len(s);
    }
}

/// The two-character string of a pair of quotation marks, accepted as an
/// alias for the sentinel empty word.
pub open spec fn quote_word() -> Seq<char> {
    seq!['"', '"']
}

/// Decides whether `w` is the quotation-mark alias of the sentinel.
pub fn is_quote_name(w: &str) -> (r: bool)
    ensures
        r == (w@ == quote_word()),
{
    if w.unicode_len() != 2 {
        return false;
    }
    let r = w.get_char(0) == '"' && w.get_char(1) == '"';
    proof {
        if r {
            assert(w@ =~= quote_word());
        } else {
            assert(w@ != quote_word());
        }
    }
    r
}

/// Decides [`is_space`].
pub fn is_space_char(c: char) -> (r: bool)
    ensures
        r == is_space(c),
{
    c == ' ' || c == '\t' || c == '\n' || c == '\r'
}

/// Character-for-character string equality.
pub fn str_eq(a: &str, b: &str) -> (r: bool)
    ensures
        r == (a@ == b@),
{
    let na = a.unicode_len();
    let nb = b.unicode_len();
    if na != nb {
        return false;
    }
    let mut i: usize = 0;
    while i < na
        invariant
            na == a@.len(),
            na == b@.len(),
            i <= na,
            forall|k: int| 0 <= k < i ==> a@[k] == b@[k],
        decreases na - i,
    {
        if a.get_char(i) != b.get_char(i) {
            return false;
        }
        i += 1;
    }
    proof {
        assert(a@ =~= b@);
    }
    true
}

/// Splits `s` into its whitespace-delimited words.
pub fn split_words(s: &str) -> (r: Vec<String>)
    ensures
        r@.map_values(|w: String| w@) == split_ws(s@),
{
    let n = s.unicode_len();
    let mut r: Vec<String> = Vec::new();
    proof {
        assert(s@.skip(0) =~= s@);
        assert(r@.map_values(|w: String| w@) =~= Seq::<Seq<char>>::empty());
    }
    let mut i: usize = 0;
    while i < n
        invariant
            n == s@.len(),
            i <= n,
            split_ws(s@) == r@.map_values(|w: String| w@) + split_ws(s@.skip(i as int)),
        decreases n - i,
    {
        let c = s.get_char(i);
        if is_space_char(c) {
            proof {
                assert(s@.skip(i as int).drop_first() =~= s@.skip(i + 1));
            }
            i += 1;
        } else {
            let start = i;
            let mut j = i + 1;
            while j < n && !is_space_char(s.get_char(j))
                invariant
                    n == s@.len(),
                    start < j <= n,
                    forall|k: int| start <= k < j ==> !is_space(#[trigger] s@[k]),
                decreases n - j,
            {
                j += 1;
            }
            let word = s.substring_char(start, j).to_owned();
            proof {
                let suffix = s@.skip(start as int);
                assert forall|k: int| 0 <= k < j - start implies !is_space(#[trigger] suffix[k]) by {
                    assert(suffix[k] == s@[start + k]);
                }
                if j < n {
                    assert(suffix[j - start] == s@[j as int]);
                }
                lemma_run_len_is(suffix, j - start);
                assert(suffix.take(j - start) =~= s@.subrange(start as int, j as int));
                assert(suffix.skip(j - start) =~= s@.skip(j as int));
                assert((r@.push(word)).map_values(|w: String| w@) =~= r@.map_values(
                    |w: String| w@,
                ).push(word@));
                assert(r@.map_values(|w: String| w@) + split_ws(suffix) =~= r@.map_values(
                    |w: String| w@,
                ).push(word@) + split_ws(s@.skip(j as int)));
            }
            r.push(word);
            i = j;
        }
    }
    proof {
        assert(s@.skip(n as int) =~= Seq::<char>::empty());
        assert(split_ws(s@) =~= r@.map_values(|w: String| w@));
    }
    r
}

} // verus!
