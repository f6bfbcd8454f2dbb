//! Character and string utilities: case folding, whitespace removal, and the
//! remove-one-occurrence / distinct-characters operations that the anagram
//! search drives its letter multiset with.

use vstd::prelude::*;

verus! {

/// The whitespace characters that queries ignore: the Unicode White_Space
/// set, the 25 fixed code points that `char::is_whitespace` recognizes.
pub open spec fn is_space_char(c: char) -> bool {
    c == ' ' || ('\u{0009}' <= c && c <= '\u{000D}') || c == '\u{0085}' || c == '\u{00A0}'
        || c == '\u{1680}' || ('\u{2000}' <= c && c <= '\u{200A}') || c == '\u{2028}' || c
        == '\u{2029}' || c == '\u{202F}' || c == '\u{205F}' || c == '\u{3000}'
}

/// What `str::to_lowercase` returns for a given text: its Unicode
/// lowercasing. Named, not spelled out — the full case mapping is the
/// standard library's.
pub uninterp spec fn lower_of(s: Seq<char>) -> Seq<char>;

/// A sequence of characters with all whitespace removed.
pub open spec fn strip_spaces(s: Seq<char>) -> Seq<char> {
    s.filter(|c: char| !is_space_char(c))
}

/// How a query is normalized before it is matched: whitespace removed, then
/// the text lowercased. Nothing is assumed of the case folding beyond its
/// name, so normalization strips whitespace once more afterwards; the real
/// folding maps no character to whitespace, so the second pass changes
/// nothing at run time.
pub open spec fn normalize(s: Seq<char>) -> Seq<char> {
    strip_spaces(lower_of(strip_spaces(s)))
}

/// True when no character of `s` is whitespace.
pub open spec fn no_spaces(s: Seq<char>) -> bool {
    forall|i: int| 0 <= i < s.len() ==> !is_space_char(s[i])
}

/// The distinct characters of `s`, each kept at its first occurrence.
pub open spec fn distinct_of(s: Seq<char>) -> Seq<char>
    decreases s.len(),
{
    if s.len() == 0 {
        Seq::empty()
    } else if s.drop_last().contains(s.last()) {
        distinct_of(s.drop_last())
    } else {
        distinct_of(s.drop_last()).push(s.last())
    }
}

/// The distinct characters of a sequence are exactly its characters,
/// and there are no more of them than the sequence is long.
pub proof fn lemma_distinct_of_contains(s: Seq<char>)
    ensures
        forall|c: char| distinct_of(s).contains(c) <==> s.contains(c),
        distinct_of(s).len() <= s.len(),
    decreases s.len(),
{
    broadcast use vstd::seq_lib::group_seq_properties;

    if s.len() > 0 {
        lemma_distinct_of_contains(s.drop_last());
        assert forall|c: char| s.contains(c) implies distinct_of(s).contains(c) by {
            let k = choose|k: int| 0 <= k < s.len() && s[k] == c;
            if k < s.len() - 1 {
                assert(s.drop_last()[k] == c);
                assert(s.drop_last().contains(c));
            } else {
                if s.drop_last().contains(s.last()) {
                    assert(distinct_of(s.drop_last()).contains(c));
                } else {
                    assert(distinct_of(s)[distinct_of(s).len() - 1] == c);
                }
            }
        }
        assert forall|c: char| distinct_of(s).contains(c) implies s.contains(c) by {
            if s.drop_last().contains(s.last()) {
                assert(s.drop_last().contains(c));
            } else if distinct_of(s.drop_last()).contains(c) {
                assert(s.drop_last().contains(c));
            } else {
                assert(c == s.last());
            }
            if s.drop_last().contains(c) {
                let k = choose|k: int| 0 <= k < s.drop_last().len() && s.drop_last()[k] == c;
                assert(s[k] == c);
            } else {
                assert(s[s.len() - 1] == c);
            }
        }
    }
}

/// Removing the first occurrence of a character that is present shortens the
/// sequence by one, takes exactly one occurrence out of the letter multiset,
/// and introduces no new characters.
pub proof fn lemma_remove_value(s: Seq<char>, c: char)
    requires
        s.contains(c),
    ensures
        s.remove_value(c).len() == s.len() - 1,
        s.to_multiset() == s.remove_value(c).to_multiset().insert(c),
        forall|x: char| s.remove_value(c).contains(x) ==> s.contains(x),
        no_spaces(s) ==> no_spaces(s.remove_value(c)),
{
    s.index_of_first_ensures(c);
    let i = s.index_of_first(c).unwrap();
    s.remove_ensures(i);
    s.to_multiset_ensures();
    assert(s.remove(i).to_multiset() =~= s.to_multiset().remove(c));
    assert(s.to_multiset().count(c) > 0);
    assert(s.remove_value(c).to_multiset().insert(c) =~= s.to_multiset());
    assert forall|x: char| s.remove_value(c).contains(x) implies s.contains(x) by {
        let r = s.remove_value(c);
        let k = choose|k: int| 0 <= k < r.len() && r[k] == x;
        if k < i {
            assert(s[k] == x);
        } else {
            assert(s[k + 1] == x);
        }
    }
    if no_spaces(s) {
        assert forall|k: int| 0 <= k < s.remove_value(c).len() implies !is_space_char(
            s.remove_value(c)[k],
        ) by {
            if k < i {
                assert(s.remove_value(c)[k] == s[k]);
            } else {
                assert(s.remove_value(c)[k] == s[k + 1]);
            }
        }
    }
}

/// The first character of a sequence is its own first occurrence: removing it
/// leaves the rest of the sequence.
pub proof fn lemma_remove_value_first(s: Seq<char>)
    requires
        s.len() > 0,
    ensures
        s.remove_value(s[0]) == s.drop_first(),
{
    s.index_of_first_ensures(s[0]);
    let i = s.index_of_first(s[0]).unwrap();
    assert(i == 0);
    assert(s.remove(0) =~= s.drop_first());
}

/// A normalized query holds no whitespace: whatever the case folding gave,
/// the final strip keeps no whitespace character.
pub proof fn lemma_normalize_no_spaces(s: Seq<char>)
    ensures
        no_spaces(normalize(s)),
{
    broadcast use vstd::seq_lib::group_filter_ensures;

    let folded = lower_of(strip_spaces(s));
    assert forall|i: int| 0 <= i < normalize(s).len() implies !is_space_char(
        normalize(s)[i],
    ) by {
        assert(!is_space_char(strip_spaces(folded)[i]));
    }
}

/// The views of a sequence of strings.
pub open spec fn views_of(v: Seq<String>) -> Seq<Seq<char>> {
    Seq::new(v.len(), |i: int| v[i]@)
}

/// Relies on `String::push`: appends the given character at the end of the
/// string and changes nothing else.
#[verifier::external_body]
pub(crate) fn push_char(s: &mut String, c: char)
    ensures
        final(s)@ == old(s)@.push(c),
{
    s.push(c);
}

/// Relies on `str::to_lowercase`: the Unicode lowercasing of the text. The
/// result depends on the characters alone, and an empty string stays empty.
#[verifier::external_body]
pub(crate) fn lowercase(s: &str) -> (r: String)
    ensures
        r@ == lower_of(s@),
        s@.len() == 0 ==> r@.len() == 0,
{
    s.to_lowercase()
}

/// Whether the character is whitespace: one of the 25 White_Space code
/// points.
fn is_space(c: char) -> (r: bool)
    ensures
        r == is_space_char(c),
{
    let n = c as u32;
    n == 0x20 || (0x09 <= n && n <= 0x0D) || n == 0x85 || n == 0xA0 || n == 0x1680 || (0x2000 <= n
        && n <= 0x200A) || n == 0x2028 || n == 0x2029 || n == 0x202F || n == 0x205F || n == 0x3000
}

/// Remove any whitespace from a string.
pub fn remove_whitespace(string: &str) -> (r: String)
    ensures
        r@ == strip_spaces(string@),
{
    let n = string.unicode_len();
    let mut out = String::new();
    let mut i: usize = 0;
    while i < n
        invariant
            n == string@.len(),
            i <= n,
            out@ == strip_spaces(string@.take(i as int)),
        decreases n - i,
    {
        let c = string.get_char(i);
        let keep = !is_space(c);
        if keep {
            push_char(&mut out, c);
        }
        proof {
            reveal(Seq::filter);
            let q = string@.take(i + 1);
            assert(q.drop_last() =~= string@.take(i as int));
            assert(q.last() == string@[i as int]);
        }
        i = i + 1;
    }
    proof {
        assert(string@.take(n as int) =~= string@);
    }
    out
}

/// Extract the next character from a string, returning both the character and
/// the remainder.
pub fn get_c(s: &String) -> (r: (char, String))
    requires
        s@.len() > 0,
    ensures
        r.0 == s@[0],
        r.1@ == s@.drop_first(),
{
    let c = s.as_str().get_char(0);
    let n = s.as_str().unicode_len();
    let rest = s.as_str().substring_char(1, n).to_owned();
    proof {
        assert(s@.subrange(1, s@.len() as int) =~= s@.drop_first());
    }
    (c, rest)
}

/// Remove the first occurrence of a character from a string; `None` when the
/// character does not occur.
pub fn remove_c(subject: &String, c: char) -> (r: Option<String>)
    ensures
        match r {
            Some(t) => subject@.contains(c) && t@ == subject@.remove_value(c),
            None => !subject@.contains(c),
        },
{
    let s = subject.as_str();
    let n = s.unicode_len();
    let mut i: usize = 0;
    while i < n
        invariant
            n == s@.len(),
            i <= n,
            s@ == subject@,
            forall|j: int| 0 <= j < i ==> s@[j] != c,
        decreases n - i,
    {
        if s.get_char(i) == c {
            let mut out = String::new();
            let mut j: usize = 0;
            while j < n
                invariant
                    n == s@.len(),
                    i < n,
                    s@[i as int] == c,
                    s@ == subject@,
                    j <= n,
                    out@ == (if j <= i {
                        s@.take(j as int)
                    } else {
                        s@.take(i as int) + s@.subrange(i + 1, j as int)
                    }),
                decreases n - j,
            {
                if j != i {
                    push_char(&mut out, s.get_char(j));
                }
                proof {
                    if j < i {
                        assert(s@.take(j + 1) =~= s@.take(j as int).push(s@[j as int]));
                    } else if j == i {
                        assert(s@.take(i as int) + s@.subrange(i + 1, i + 1) =~= s@.take(
                            i as int,
                        ));
                    } else {
                        assert(s@.take(i as int) + s@.subrange(i + 1, j + 1) =~= (s@.take(
                            i as int,
                        ) + s@.subrange(i + 1, j as int)).push(s@[j as int]));
                    }
                }
                j = j + 1;
            }
            proof {
                subject@.index_of_first_ensures(c);
                let f = subject@.index_of_first(c).unwrap();
                assert(subject@[i as int] == c);
                assert(subject@.contains(c));
                assert(f == i);
                assert(out@ =~= subject@.remove(i as int));
            }
            return Some(out);
        }
        i = i + 1;
    }
    proof {
        assert(!subject@.contains(c));
    }
    None
}

/// The distinct characters of a string, in order of first occurrence.
pub fn distinct_chars(s: &str) -> (r: Vec<char>)
    ensures
        r@ == distinct_of(s@),
{
    let n = s.unicode_len();
    let mut out: Vec<char> = Vec::new();
    let mut i: usize = 0;
    while i < n
        invariant
            n == s@.len(),
            i <= n,
            out@ == distinct_of(s@.take(i as int)),
        decreases n - i,
    {
        let c = s.get_char(i);
        proof {
            lemma_distinct_of_contains(s@.take(i as int));
            assert(s@.take(i + 1).drop_last() =~= s@.take(i as int));
            assert(s@.take(i + 1).last() == s@[i as int]);
        }
        if !contains_char(&out, c) {
            out.push(c);
        }
        i = i + 1;
    }
    proof {
        assert(s@.take(n as int) =~= s@);
    }
    out
}

/// Whether a vector of characters holds the given character.
fn contains_char(v: &Vec<char>, c: char) -> (r: bool)
    ensures
        r == v@.contains(c),
{
    let mut i: usize = 0;
    while i < v.len()
        invariant
            i <= v@.len(),
            forall|j: int| 0 <= j < i ==> v@[j] != c,
        decreases v@.len() - i,
    {
        if v[i] == c {
            return true;
        }
        i = i + 1;
    }
    false
}

} // verus!
