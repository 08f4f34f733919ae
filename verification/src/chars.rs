//! Character classification and character-sequence utilities.
//!
//! The tokenizer works on sequences of characters.  Everything here is
//! specified against recursive spec functions over `Seq<char>`; the two
//! Unicode character classes the tokenizer depends on (alphabetic,
//! whitespace) are named by uninterpreted spec functions and supplied by
//! the standard library.

use vstd::prelude::*;

verus! {

/// Whether a character has the Unicode `Alphabetic` property, as decided
/// by `char::is_alphabetic`.
pub uninterp spec fn is_alpha(c: char) -> bool;

/// Whether a character has the Unicode `White_Space` property: the
/// controls tab through carriage return, the space, the next line, and
/// the fixed set of Unicode space characters.
pub open spec fn is_space(c: char) -> bool {
    ('\u{9}' <= c && c <= '\u{d}') || c == ' ' || c == '\u{85}' || c == '\u{a0}' || c == '\u{1680}'
        || ('\u{2000}' <= c && c <= '\u{200a}') || c == '\u{2028}' || c == '\u{2029}' || c
        == '\u{202f}' || c == '\u{205f}' || c == '\u{3000}'
}

/// Relies on `char::is_alphabetic`: a pure predicate on the character.
#[verifier::external_body]
pub fn char_is_alpha(c: char) -> (r: bool)
    ensures
        r == is_alpha(c),
{
    c.is_alphabetic()
}

/// Whether the character has the Unicode `White_Space` property.
pub fn char_is_space(c: char) -> (r: bool)
    ensures
        r == is_space(c),
{
    ('\u{9}' <= c && c <= '\u{d}') || c == ' ' || c == '\u{85}' || c == '\u{a0}' || c
        == '\u{1680}' || ('\u{2000}' <= c && c <= '\u{200a}') || c == '\u{2028}' || c == '\u{2029}'
        || c == '\u{202f}' || c == '\u{205f}' || c == '\u{3000}'
}

/// The sequence with every leading whitespace character removed.
pub open spec fn trim_start_spec(s: Seq<char>) -> Seq<char>
    decreases s.len(),
{
    if s.len() > 0 && is_space(s[0]) {
        trim_start_spec(s.drop_first())
    } else {
        s
    }
}

/// The sequence with every trailing whitespace character removed.
pub open spec fn trim_end_spec(s: Seq<char>) -> Seq<char>
    decreases s.len(),
{
    if s.len() > 0 && is_space(s.last()) {
        trim_end_spec(s.drop_last())
    } else {
        s
    }
}

/// The sequence with leading and trailing whitespace removed.
pub open spec fn trim_spec(s: Seq<char>) -> Seq<char> {
    trim_end_spec(trim_start_spec(s))
}

/// The sequence with every leading occurrence of `c` removed.
pub open spec fn strip_leading_spec(s: Seq<char>, c: char) -> Seq<char>
    decreases s.len(),
{
    if s.len() > 0 && s[0] == c {
        strip_leading_spec(s.drop_first(), c)
    } else {
        s
    }
}

/// The sequence with every trailing occurrence of `c` removed.
pub open spec fn strip_trailing_spec(s: Seq<char>, c: char) -> Seq<char>
    decreases s.len(),
{
    if s.len() > 0 && s.last() == c {
        strip_trailing_spec(s.drop_last(), c)
    } else {
        s
    }
}

/// The sequence with every leading occurrence of the two-character
/// pattern `[a, b]` removed.
pub open spec fn strip_leading_pair_spec(s: Seq<char>, a: char, b: char) -> Seq<char>
    decreases s.len(),
{
    if s.len() >= 2 && s[0] == a && s[1] == b {
        strip_leading_pair_spec(s.skip(2), a, b)
    } else {
        s
    }
}

/// Length of the maximal non-whitespace prefix of `s`.
pub open spec fn word_len_spec(s: Seq<char>) -> nat
    decreases s.len(),
{
    if s.len() > 0 && !is_space(s[0]) {
        1 + word_len_spec(s.drop_first())
    } else {
        0
    }
}

/// The whitespace-separated words of `s`, in order, each nonempty.
pub open spec fn split_ws_spec(s: Seq<char>) -> Seq<Seq<char>>
    decreases s.len(),
    via split_ws_spec_decreases
{
    if s.len() == 0 {
        Seq::empty()
    } else if is_space(s[0]) {
        split_ws_spec(s.drop_first())
    } else {
        seq![s.take(word_len_spec(s) as int)] + split_ws_spec(s.skip(word_len_spec(s) as int))
    }
}

#[via_fn]
proof fn split_ws_spec_decreases(s: Seq<char>) {
    if s.len() > 0 && !is_space(s[0]) {
        lemma_word_len_le(s);
        assert(word_len_spec(s) >= 1);
    }
}

/// A word is never longer than the sequence it starts.
pub proof fn lemma_word_len_le(s: Seq<char>)
    ensures
        word_len_spec(s) <= s.len(),
    decreases s.len(),
{
    if s.len() > 0 && !is_space(s[0]) {
        lemma_word_len_le(s.drop_first());
    }
}

/// Every character of `s` is alphabetic.
pub open spec fn all_alpha_spec(s: Seq<char>) -> bool {
    forall|i: int| 0 <= i < s.len() ==> is_alpha(#[trigger] s[i])
}

/// `s` contains `=` immediately followed by `"` somewhere.
pub open spec fn has_eq_quote_spec(s: Seq<char>) -> bool {
    exists|i: int| 0 <= i && i + 1 < s.len() && (#[trigger] s[i]) == '=' && s[i + 1] == '"'
}

/// Position of the first occurrence of `c` in `s`, if any.
pub open spec fn find_char_spec(s: Seq<char>, c: char) -> Option<int>
    decreases s.len(),
{
    if s.len() == 0 {
        None
    } else if s[0] == c {
        Some(0int)
    } else {
        match find_char_spec(s.drop_first(), c) {
            Some(i) => Some(i + 1),
            None => None,
        }
    }
}

/// Relies on `String::push`: appends exactly the one character.
#[verifier::external_body]
fn push_char(s: &mut String, c: char)
    ensures
        final(s)@ == old(s)@.push(c),
{
    s.push(c);
}

/// The characters of `v` as a `String`.
pub fn chars_to_string(v: &Vec<char>) -> (r: String)
    ensures
        r@ == v@,
{
    let mut s = String::new();
    let mut i: usize = 0;
    proof {
        assert(s@ =~= v@.take(0));
    }
    while i < v.len()
        invariant
            0 <= i <= v@.len(),
            s@ == v@.take(i as int),
        decreases v@.len() - i,
    {
        push_char(&mut s, v[i]);
        proof {
            assert(v@.take(i as int).push(v@[i as int]) =~= v@.take(i + 1int));
        }
        i = i + 1;
    }
    proof {
        assert(v@.take(v@.len() as int) =~= v@);
    }
    s
}

/// Position of the last occurrence of `c` in `s`, if any.
pub open spec fn rfind_char_spec(s: Seq<char>, c: char) -> Option<int>
    decreases s.len(),
{
    if s.len() == 0 {
        None
    } else if s.last() == c {
        Some(s.len() - 1)
    } else {
        rfind_char_spec(s.drop_last(), c)
    }
}

/// What `rfind_char_spec` returns: the last occurrence of `c`, or nothing.
pub proof fn lemma_rfind_char(s: Seq<char>, c: char)
    ensures
        match rfind_char_spec(s, c) {
            Some(i) => 0 <= i < s.len() && s[i] == c && forall|k: int| i < k < s.len() ==> s[k]
                != c,
            None => forall|k: int| 0 <= k < s.len() ==> s[k] != c,
        },
    decreases s.len(),
{
    if s.len() > 0 && s.last() != c {
        lemma_rfind_char(s.drop_last(), c);
        match rfind_char_spec(s.drop_last(), c) {
            Some(i) => {
                assert forall|k: int| i < k < s.len() implies s[k] != c by {
                    if k < s.len() - 1 {
                        assert(s.drop_last()[k] != c);
                    }
                }
            },
            None => {
                assert forall|k: int| 0 <= k < s.len() implies s[k] != c by {
                    if k < s.len() - 1 {
                        assert(s.drop_last()[k] != c);
                    }
                }
            },
        }
    }
}

/// Position of the last occurrence of `c`, if any.
pub fn rfind_char(v: &Vec<char>, c: char) -> (r: Option<usize>)
    ensures
        match r {
            Some(i) => i < v@.len() && rfind_char_spec(v@, c) == Some(i as int),
            None => rfind_char_spec(v@, c) is None,
        },
{
    proof {
        lemma_rfind_char(v@, c);
    }
    let mut j: usize = v.len();
    while j > 0
        invariant
            0 <= j <= v@.len(),
            forall|k: int| j <= k < v@.len() ==> v@[k] != c,
            match rfind_char_spec(v@, c) {
                Some(i) => 0 <= i < v@.len() && v@[i] == c && forall|k: int| i < k < v@.len()
                    ==> v@[k] != c,
                None => forall|k: int| 0 <= k < v@.len() ==> v@[k] != c,
            },
        decreases j,
    {
        if v[j - 1] == c {
            proof {
                if let Some(i) = rfind_char_spec(v@, c) {
                    assert(!(i < j - 1) && !(j - 1 < i));
                }
            }
            return Some(j - 1);
        }
        j = j - 1;
    }
    None
}

/// Whether `s` ends with `suf`.
pub open spec fn ends_with_spec(s: Seq<char>, suf: Seq<char>) -> bool {
    s.len() >= suf.len() && s.skip(s.len() - suf.len()) == suf
}

/// Whether `v` ends with `suffix`.
pub fn ends_with(v: &Vec<char>, suffix: &Vec<char>) -> (r: bool)
    ensures
        r == ends_with_spec(v@, suffix@),
{
    if suffix.len() > v.len() {
        return false;
    }
    let off = v.len() - suffix.len();
    let mut i: usize = 0;
    while i < suffix.len()
        invariant
            0 <= i <= suffix@.len(),
            suffix@.len() <= v@.len(),
            v@.len() <= usize::MAX,
            off == v@.len() - suffix@.len(),
            forall|k: int| 0 <= k < i ==> v@[off + k] == suffix@[k],
        decreases suffix@.len() - i,
    {
        if v[off + i] != suffix[i] {
            proof {
                assert(v@.skip(off as int)[i as int] != suffix@[i as int]);
            }
            return false;
        }
        i = i + 1;
    }
    proof {
        assert(v@.skip(off as int) =~= suffix@);
    }
    true
}

/// Whether two character vectors hold the same characters.
pub fn eq_chars(a: &Vec<char>, b: &Vec<char>) -> (r: bool)
    ensures
        r == (a@ == b@),
{
    if a.len() != b.len() {
        return false;
    }
    let mut i: usize = 0;
    while i < a.len()
        invariant
            0 <= i <= a@.len(),
            a@.len() == b@.len(),
            forall|k: int| 0 <= k < i ==> a@[k] == b@[k],
        decreases a@.len() - i,
    {
        if a[i] != b[i] {
            return false;
        }
        i = i + 1;
    }
    proof {
        assert(a@ =~= b@);
    }
    true
}

/// Copy of `v`.
pub fn clone_chars(v: &Vec<char>) -> (r: Vec<char>)
    ensures
        r@ == v@,
{
    let r = subrange_vec(v, 0, v.len());
    proof {
        assert(v@.subrange(0, v@.len() as int) =~= v@);
    }
    r
}

/// Copy of `v[i..j]`.
pub fn subrange_vec(v: &Vec<char>, i: usize, j: usize) -> (r: Vec<char>)
    requires
        i <= j <= v@.len(),
    ensures
        r@ == v@.subrange(i as int, j as int),
{
    let mut r: Vec<char> = Vec::new();
    let mut k: usize = i;
    while k < j
        invariant
            i <= k <= j <= v@.len(),
            r@ == v@.subrange(i as int, k as int),
        decreases j - k,
    {
        r.push(v[k]);
        assert(v@.subrange(i as int, k + 1int) == v@.subrange(i as int, k as int).push(v@[k as int]));
        k = k + 1;
    }
    r
}

/// Every leading occurrence of `c` removed.
pub fn strip_leading(v: &Vec<char>, c: char) -> (r: Vec<char>)
    ensures
        r@ == strip_leading_spec(v@, c),
{
    let ghost s = v@;
    proof {
        assert(s.skip(0) =~= s);
    }
    let mut i: usize = 0;
    while i < v.len() && v[i] == c
        invariant
            0 <= i <= s.len(),
            s == v@,
            strip_leading_spec(s, c) == strip_leading_spec(s.skip(i as int), c),
        decreases s.len() - i,
    {
        proof {
            assert(s.skip(i as int).drop_first() =~= s.skip(i + 1int));
        }
        i = i + 1;
    }
    proof {
        if i == s.len() {
            assert(s.skip(i as int) =~= Seq::<char>::empty());
        }
        assert(strip_leading_spec(s, c) == s.skip(i as int));
        assert(s.skip(i as int) =~= s.subrange(i as int, s.len() as int));
    }
    subrange_vec(v, i, v.len())
}

/// Every trailing occurrence of `c` removed.
pub fn strip_trailing(v: &Vec<char>, c: char) -> (r: Vec<char>)
    ensures
        r@ == strip_trailing_spec(v@, c),
{
    let ghost s = v@;
    proof {
        assert(s.take(s.len() as int) =~= s);
    }
    let mut j: usize = v.len();
    while j > 0 && v[j - 1] == c
        invariant
            0 <= j <= s.len(),
            s == v@,
            strip_trailing_spec(s, c) == strip_trailing_spec(s.take(j as int), c),
        decreases j,
    {
        proof {
            let t = s.take(j as int);
            assert(t.last() == s[j - 1int]);
            assert(t.drop_last() =~= s.take(j - 1int));
        }
        j = j - 1;
    }
    proof {
        let t = s.take(j as int);
        if j > 0 {
            assert(t.last() == s[j - 1int]);
        }
        assert(strip_trailing_spec(s, c) == s.take(j as int));
        assert(s.take(j as int) =~= s.subrange(0, j as int));
    }
    subrange_vec(v, 0, j)
}

/// Every leading occurrence of the pair `[a, b]` removed.
pub fn strip_leading_pair(v: &Vec<char>, a: char, b: char) -> (r: Vec<char>)
    ensures
        r@ == strip_leading_pair_spec(v@, a, b),
{
    let ghost s = v@;
    proof {
        assert(s.skip(0) =~= s);
    }
    let mut i: usize = 0;
    while i < v.len() && i + 1 < v.len() && v[i] == a && v[i + 1] == b
        invariant
            0 <= i <= s.len(),
            s == v@,
            strip_leading_pair_spec(s, a, b) == strip_leading_pair_spec(s.skip(i as int), a, b),
        decreases s.len() - i,
    {
        proof {
            assert(s.skip(i as int).skip(2) =~= s.skip(i + 2int));
        }
        i = i + 2;
    }
    proof {
        assert(strip_leading_pair_spec(s, a, b) == s.skip(i as int));
        assert(s.skip(i as int) =~= s.subrange(i as int, s.len() as int));
    }
    subrange_vec(v, i, v.len())
}

/// Whether every character of `v` is alphabetic.
pub fn all_alpha(v: &Vec<char>) -> (r: bool)
    ensures
        r == all_alpha_spec(v@),
{
    let mut i: usize = 0;
    while i < v.len()
        invariant
            0 <= i <= v@.len(),
            forall|k: int| 0 <= k < i ==> is_alpha(#[trigger] v@[k]),
        decreases v@.len() - i,
    {
        if !char_is_alpha(v[i]) {
            return false;
        }
        i = i + 1;
    }
    true
}

/// Whether `v` contains `=` immediately followed by `"`.
pub fn has_eq_quote(v: &Vec<char>) -> (r: bool)
    ensures
        r == has_eq_quote_spec(v@),
{
    if v.len() < 1 {
        return false;
    }
    let mut i: usize = 0;
    while i < v.len() && i + 1 < v.len()
        invariant
            0 <= i <= v@.len(),
            forall|k: int| 0 <= k && k + 1 < v@.len() && k < i ==> !((#[trigger] v@[k]) == '='
                && v@[k + 1] == '"'),
        decreases v@.len() - i,
    {
        if v[i] == '=' && v[i + 1] == '"' {
            return true;
        }
        i = i + 1;
    }
    false
}

/// What `find_char_spec` returns: the first occurrence of `c`, or nothing.
pub proof fn lemma_find_char(s: Seq<char>, c: char)
    ensures
        match find_char_spec(s, c) {
            Some(i) => 0 <= i < s.len() && s[i] == c && forall|k: int| 0 <= k < i ==> s[k] != c,
            None => forall|k: int| 0 <= k < s.len() ==> s[k] != c,
        },
    decreases s.len(),
{
    if s.len() > 0 && s[0] != c {
        lemma_find_char(s.drop_first(), c);
        match find_char_spec(s.drop_first(), c) {
            Some(i) => {
                assert forall|k: int| 0 <= k < i + 1 implies s[k] != c by {
                    if k > 0 {
                        assert(s.drop_first()[k - 1] != c);
                    }
                }
            },
            None => {
                assert forall|k: int| 0 <= k < s.len() implies s[k] != c by {
                    if k > 0 {
                        assert(s.drop_first()[k - 1] != c);
                    }
                }
            },
        }
    }
}

/// Position of the first occurrence of `c`, if any.
pub fn find_char(v: &Vec<char>, c: char) -> (r: Option<usize>)
    ensures
        match r {
            Some(i) => i < v@.len() && find_char_spec(v@, c) == Some(i as int),
            None => find_char_spec(v@, c) is None,
        },
{
    proof {
        lemma_find_char(v@, c);
    }
    let mut i: usize = 0;
    while i < v.len()
        invariant
            0 <= i <= v@.len(),
            forall|k: int| 0 <= k < i ==> v@[k] != c,
            match find_char_spec(v@, c) {
                Some(j) => 0 <= j < v@.len() && v@[j] == c && forall|k: int| 0 <= k < j ==> v@[k]
                    != c,
                None => forall|k: int| 0 <= k < v@.len() ==> v@[k] != c,
            },
        decreases v@.len() - i,
    {
        if v[i] == c {
            proof {
                if let Some(j) = find_char_spec(v@, c) {
                    assert(!(j < i) && !(i < j));
                }
            }
            return Some(i);
        }
        i = i + 1;
    }
    None
}

/// How long the first word is: `word_len_spec` counts the characters up
/// to the first whitespace.
pub proof fn lemma_word_len(s: Seq<char>)
    ensures
        word_len_spec(s) <= s.len(),
        forall|k: int| 0 <= k < word_len_spec(s) ==> !is_space(#[trigger] s[k]),
        word_len_spec(s) < s.len() ==> is_space(s[word_len_spec(s) as int]),
    decreases s.len(),
{
    if s.len() > 0 && !is_space(s[0]) {
        lemma_word_len(s.drop_first());
        assert forall|k: int| 0 <= k < word_len_spec(s) implies !is_space(#[trigger] s[k]) by {
            if k > 0 {
                assert(!is_space(s.drop_first()[k - 1]));
            }
        }
    }
}

/// The words of `v`, split on whitespace, as `str::split_whitespace` does.
pub fn split_whitespace(v: &Vec<char>) -> (r: Vec<Vec<char>>)
    ensures
        r.deep_view() == split_ws_spec(v@),
{
    let ghost s = v@;
    proof {
        assert(s.skip(0) =~= s);
        assert(Seq::<Seq<char>>::empty() + split_ws_spec(s) =~= split_ws_spec(s));
    }
    let mut r: Vec<Vec<char>> = Vec::new();
    let mut i: usize = 0;
    while i < v.len()
        invariant
            0 <= i <= s.len(),
            s == v@,
            split_ws_spec(s) == r.deep_view() + split_ws_spec(s.skip(i as int)),
        decreases s.len() - i,
    {
        if char_is_space(v[i]) {
            proof {
                assert(s.skip(i as int).drop_first() =~= s.skip(i + 1int));
            }
            i = i + 1;
        } else {
            let mut j: usize = i + 1;
            proof {
                assert(s.skip(i as int).drop_first() =~= s.skip(i + 1int));
            }
            while j < v.len() && !char_is_space(v[j])
                invariant
                    i < j <= s.len(),
                    s == v@,
                    !is_space(s[i as int]),
                    word_len_spec(s.skip(i as int)) == (j - i) + word_len_spec(s.skip(j as int)),
                decreases s.len() - j,
            {
                proof {
                    assert(s.skip(j as int).drop_first() =~= s.skip(j + 1int));
                }
                j = j + 1;
            }
            proof {
                let tail = s.skip(i as int);
                if j == s.len() {
                    assert(s.skip(j as int) =~= Seq::<char>::empty());
                }
                assert(word_len_spec(tail) == j - i);
                assert(tail.take(j - i) =~= s.subrange(i as int, j as int));
                assert(tail.skip(j - i) =~= s.skip(j as int));
                assert(seq![s.subrange(i as int, j as int)] + split_ws_spec(s.skip(j as int))
                    == split_ws_spec(tail));
            }
            let word = subrange_vec(v, i, j);
            let ghost old_r = r.deep_view();
            r.push(word);
            proof {
                assert(r.deep_view() =~~= old_r.push(s.subrange(i as int, j as int)));
                assert(r.deep_view() + split_ws_spec(s.skip(j as int)) =~= split_ws_spec(s));
            }
            i = j;
        }
    }
    proof {
        assert(s.skip(i as int) =~= Seq::<char>::empty());
        assert(r.deep_view() + split_ws_spec(s.skip(i as int)) =~= r.deep_view());
    }
    r
}

/// Leading and trailing whitespace removed, as `str::trim` does.
pub fn trim(v: &Vec<char>) -> (r: Vec<char>)
    ensures
        r@ == trim_spec(v@),
{
    let ghost s = v@;
    proof {
        assert(s.skip(0) =~= s);
    }
    let mut i: usize = 0;
    while i < v.len() && char_is_space(v[i])
        invariant
            0 <= i <= s.len(),
            s == v@,
            trim_start_spec(s) == trim_start_spec(s.skip(i as int)),
        decreases s.len() - i,
    {
        proof {
            assert(s.skip(i as int).drop_first() =~= s.skip(i + 1int));
        }
        i = i + 1;
    }
    proof {
        if i < s.len() {
            assert(trim_start_spec(s.skip(i as int)) == s.skip(i as int));
        } else {
            assert(s.skip(i as int) =~= Seq::<char>::empty());
        }
        assert(trim_start_spec(s) == s.skip(i as int));
        assert(s.skip(i as int) =~= s.subrange(i as int, s.len() as int));
    }
    let mut j: usize = v.len();
    while j > i && char_is_space(v[j - 1])
        invariant
            0 <= i <= j <= s.len(),
            s == v@,
            trim_start_spec(s) == s.skip(i as int),
            trim_end_spec(s.skip(i as int)) == trim_end_spec(s.subrange(i as int, j as int)),
        decreases j,
    {
        proof {
            let t = s.subrange(i as int, j as int);
            assert(t.last() == s[j - 1int]);
            assert(t.drop_last() =~= s.subrange(i as int, j - 1int));
        }
        j = j - 1;
    }
    proof {
        let t = s.subrange(i as int, j as int);
        if j > i {
            assert(t.last() == s[j - 1int]);
            assert(trim_end_spec(t) == t);
        } else {
            assert(t =~= Seq::<char>::empty());
        }
        assert(trim_spec(s) == s.subrange(i as int, j as int));
    }
    subrange_vec(v, i, j)
}

} // verus!
