//! The anagram search: a recursive, backtracking traversal of the trie,
//! driven by the multiset of letters of the query that are not yet consumed.
//! A word boundary with letters left over restarts the search at the
//! dictionary root to assemble multi-word phrases.

use crate::text::distinct_chars;
use crate::text::distinct_of;
use crate::text::is_space_char;
use crate::text::lemma_distinct_of_contains;
use crate::text::lemma_normalize_no_spaces;
use crate::text::lemma_remove_value;
use crate::text::lemma_remove_value_first;
use crate::text::lower_of;
use crate::text::lowercase;
use crate::text::no_spaces;
use crate::text::normalize;
use crate::text::remove_c;
use crate::text::remove_whitespace;
use crate::text::strip_spaces;
use crate::text::views_of;
use crate::trie::child_of;
use crate::trie::contains_word;
use crate::trie::lemma_parse_contains;
use crate::trie::lemma_spec_parse_wf;
use crate::trie::parse;
use crate::trie::spec_parse;
use crate::trie::find_key;
use crate::trie::has_child;
use crate::trie::key_index;
use crate::trie::lemma_key_index;
use crate::trie::lemma_key_index_at;
use crate::trie::lemma_model_children;
use crate::trie::wf;
use crate::trie::Dictionary;
use crate::trie::TrieModel;
use vstd::multiset::Multiset;
use vstd::seq_lib::lemma_multiset_commutative;
use vstd::prelude::*;

verus! {

/// Each phrase of `rs` with `path` and a single space put in front of it:
/// the continuations found after a word boundary.
pub open spec fn with_prefix(path: Seq<char>, rs: Seq<Seq<char>>) -> Seq<Seq<char>> {
    rs.map_values(|p: Seq<char>| path + seq![' '] + p)
}

/// The phrases found by searching below the node `t` with the letters `rem`
/// still unconsumed, restarting at `root` on word boundaries. In order:
/// word-boundary results first, then the results of descending along each
/// distinct remaining letter.
pub open spec fn spec_search(t: TrieModel, rem: Seq<char>, root: TrieModel) -> Seq<Seq<char>>
    decreases rem.len(), (if t.word {
        1int
    } else {
        0int
    }), rem.len() + 1,
        when !root.word
        via spec_search_dec
{
    if rem.len() == 0 {
        if t.word {
            seq![t.path]
        } else {
            Seq::empty()
        }
    } else {
        let boundary = if t.word {
            with_prefix(t.path, spec_search(root, rem, root))
        } else {
            Seq::empty()
        };
        boundary + spec_search_cs(t, rem, distinct_of(rem), root)
    }
}

/// The phrases found by descending from `t` along one candidate character:
/// those of the child for `c` with one occurrence of `c` consumed, or none
/// when `c` is not remaining or `t` has no such child.
pub open spec fn search_here(t: TrieModel, rem: Seq<char>, c: char, root: TrieModel) -> Seq<
    Seq<char>,
>
    decreases rem.len(), (if t.word {
        1int
    } else {
        0int
    }), 0int,
        when !root.word
        via search_here_dec
{
    if rem.contains(c) && has_child(t, c) {
        spec_search(child_of(t, c), rem.remove_value(c), root)
    } else {
        Seq::empty()
    }
}

/// The phrases found by descending from `t` along each candidate character of
/// `cs` in turn.
pub open spec fn spec_search_cs(
    t: TrieModel,
    rem: Seq<char>,
    cs: Seq<char>,
    root: TrieModel,
) -> Seq<Seq<char>>
    decreases rem.len(), (if t.word {
        1int
    } else {
        0int
    }), cs.len(),
        when !root.word
{
    if cs.len() == 0 {
        Seq::empty()
    } else {
        search_here(t, rem, cs[0], root) + spec_search_cs(t, rem, cs.drop_first(), root)
    }
}

#[via_fn]
proof fn spec_search_dec(t: TrieModel, rem: Seq<char>, root: TrieModel) {
    lemma_distinct_of_contains(rem);
}

#[via_fn]
proof fn search_here_dec(t: TrieModel, rem: Seq<char>, c: char, root: TrieModel) {
    if rem.contains(c) {
        lemma_remove_value(rem, c);
    }
}

/// The views of a pushed list are the views with the view pushed.
proof fn lemma_views_push(v: Seq<String>, s: String)
    ensures
        views_of(v.push(s)) == views_of(v).push(s@),
{
    assert(views_of(v.push(s)) =~= views_of(v).push(s@));
}

/// The views of a concatenation are the concatenated views.
proof fn lemma_views_add(a: Seq<String>, b: Seq<String>)
    ensures
        views_of(a + b) == views_of(a) + views_of(b),
{
    assert(views_of(a + b) =~= views_of(a) + views_of(b));
}

/// Extending the candidate list by one character appends that character's
/// results to the results of the list.
proof fn lemma_search_cs_snoc(
    t: TrieModel,
    rem: Seq<char>,
    cs: Seq<char>,
    c: char,
    root: TrieModel,
)
    requires
        !root.word,
    ensures
        spec_search_cs(t, rem, cs.push(c), root) == spec_search_cs(t, rem, cs, root)
            + search_here(t, rem, c, root),
    decreases cs.len(),
{
    let p = cs.push(c);
    let here = search_here(t, rem, c, root);
    if cs.len() == 0 {
        assert(p[0] == c);
        assert(p.drop_first() =~= cs);
        assert(here + spec_search_cs(t, rem, cs, root) =~= here);
        assert(spec_search_cs(t, rem, cs, root) + here =~= here);
    } else {
        assert(p[0] == cs[0]);
        assert(p.drop_first() =~= cs.drop_first().push(c));
        lemma_search_cs_snoc(t, rem, cs.drop_first(), c, root);
        let a = search_here(t, rem, cs[0], root);
        let b = spec_search_cs(t, rem, cs.drop_first(), root);
        assert((a + b) + here =~= a + (b + here));
    }
}

impl Dictionary {
    /// Helper method to find anagrams, carrying a reference to the dictionary
    /// root for the multi-word restart.
    pub fn anagrams_helper(&self, word: String, root: &Dictionary) -> (r: Vec<String>)
        requires
            !root.model().word,
        ensures
            views_of(r@) == spec_search(self.model(), word@, root.model()),
        decreases word@.len(), (if self.word {
            1int
        } else {
            0int
        }),
    {
        let ghost t = self.model();
        let ghost rt = root.model();
        let mut results: Vec<String> = Vec::new();
        if word.as_str().is_empty() {
            if self.word {
                results.push(self.path.clone());
                proof {
                    assert(views_of(results@) =~= seq![t.path]);
                }
            } else {
                proof {
                    assert(views_of(results@) =~= Seq::<Seq<char>>::empty());
                }
            }
            return results;
        }
        if self.word {
            let sub = root.anagrams_helper(word.clone(), root);
            let ghost target = with_prefix(t.path, spec_search(rt, word@, rt));
            let mut k: usize = 0;
            while k < sub.len()
                invariant
                    k <= sub@.len(),
                    views_of(sub@) == spec_search(rt, word@, rt),
                    target == with_prefix(t.path, spec_search(rt, word@, rt)),
                    views_of(results@) == target.take(k as int),
                    t == self.model(),
                decreases sub@.len() - k,
            {
                let s = self.path.clone().concat(" ").concat(sub[k].as_str());
                proof {
                    reveal_strlit(" ");
                    assert((" ")@ =~= seq![' ']);
                    assert(views_of(sub@)[k as int] == sub@[k as int]@);
                    assert(s@ == t.path + seq![' '] + spec_search(rt, word@, rt)[k as int]);
                    assert(target[k as int] == t.path + seq![' '] + spec_search(
                        rt,
                        word@,
                        rt,
                    )[k as int]);
                    lemma_views_push(results@, s);
                    assert(target.take(k + 1) =~= target.take(k as int).push(target[k as int]));
                }
                results.push(s);
                k = k + 1;
            }
            proof {
                assert(target.take(sub@.len() as int) =~= target);
            }
        }
        let ghost boundary: Seq<Seq<char>> = if t.word {
            with_prefix(t.path, spec_search(rt, word@, rt))
        } else {
            Seq::empty()
        };
        proof {
            if !t.word {
                assert(views_of(results@) =~= Seq::<Seq<char>>::empty());
            }
        }
        let cs = distinct_chars(word.as_str());
        let ghost csq: Seq<char> = cs@;
        let mut j: usize = 0;
        while j < cs.len()
            invariant
                j <= cs@.len(),
                cs@ == csq,
                csq == distinct_of(word@),
                word@.len() > 0,
                t == self.model(),
                rt == root.model(),
                !rt.word,
                boundary == (if t.word {
                    with_prefix(t.path, spec_search(rt, word@, rt))
                } else {
                    Seq::<Seq<char>>::empty()
                }),
                views_of(results@) == boundary + spec_search_cs(t, word@, csq.take(j as int), rt),
            decreases cs@.len() - j,
        {
            let c = cs[j];
            let ghost here = search_here(t, word@, c, rt);
            let ghost before = results@;
            match remove_c(&word, c) {
                Some(rest) => {
                    match find_key(&self.children, c) {
                        Some(i) => {
                            proof {
                                lemma_remove_value(word@, c);
                                lemma_model_children(self.children@);
                                lemma_key_index_at::<TrieModel>(t.children, c, i as int);
                                assert(child_of(t, c) == self.children@[i as int].1.model());
                            }
                            let mut sub = self.children[i].1.anagrams_helper(rest, root);
                            let ghost subv = sub@;
                            results.append(&mut sub);
                            proof {
                                lemma_views_add(before, subv);
                                assert(views_of(subv) == here);
                                assert(views_of(results@) == (boundary + spec_search_cs(
                                    t,
                                    word@,
                                    csq.take(j as int),
                                    rt,
                                )) + here);
                            }
                        },
                        None => {
                            proof {
                                lemma_model_children(self.children@);
                                lemma_key_index::<TrieModel>(t.children, c);
                                if key_index(t.children, c) >= 0 {
                                    assert(self.children@[key_index(t.children, c)].0 == c);
                                }
                                assert(here =~= Seq::<Seq<char>>::empty());
                                assert(results@ + Seq::<String>::empty() =~= results@);
                                assert(views_of(results@) =~= (boundary + spec_search_cs(
                                    t,
                                    word@,
                                    csq.take(j as int),
                                    rt,
                                )) + here);
                            }
                        },
                    }
                },
                None => {
                    proof {
                        lemma_distinct_of_contains(word@);
                        assert(csq[j as int] == c);
                        assert(distinct_of(word@).contains(c));
                        assert(false);
                    }
                },
            }
            proof {
                lemma_search_cs_snoc(t, word@, csq.take(j as int), c, rt);
                assert(csq.take(j + 1) =~= csq.take(j as int).push(c));
                assert((boundary + spec_search_cs(t, word@, csq.take(j as int), rt)) + here
                    =~= boundary + (spec_search_cs(t, word@, csq.take(j as int), rt) + here));
            }
            j = j + 1;
        }
        proof {
            assert(csq.take(cs@.len() as int) =~= csq);
        }
        results
    }

    /// Get all anagram phrases that match a provided word. The query is
    /// normalized first — whitespace removed, the text lowercased, and any
    /// whitespace stripped again, a pass the real case folding makes a no-op
    /// — so queries with the same letters give the same results. An empty
    /// query matches nothing, since the root is no word.
    pub fn anagrams(&self, word: String) -> (r: Vec<String>)
        requires
            !self.model().word,
        ensures
            views_of(r@) == spec_search(self.model(), normalize(word@), self.model()),
            normalize(word@).len() == 0 ==> r@.len() == 0,
    {
        let stripped = remove_whitespace(word.as_str());
        let lowered = lowercase(stripped.as_str());
        let query = remove_whitespace(lowered.as_str());
        let r = self.anagrams_helper(query, self);
        proof {
            if normalize(word@).len() == 0 {
                assert(views_of(r@).len() == r@.len());
            }
        }
        r
    }
}

/// Find the anagrams of a word against a word list: build the dictionary
/// from the lines, then search for the query's letters.
pub fn get_anagrams(lines: Vec<String>, word: String) -> (r: Vec<String>)
    ensures
        views_of(r@) == spec_search(
            spec_parse(views_of(lines@)),
            normalize(word@),
            spec_parse(views_of(lines@)),
        ),
{
    let root = parse(lines);
    root.anagrams(word)
}

/// Whitespace-free text is unchanged by stripping.
proof fn lemma_strip_no_spaces(s: Seq<char>)
    requires
        no_spaces(s),
    ensures
        strip_spaces(s) == s,
    decreases s.len(),
{
    reveal(Seq::filter);
    if s.len() > 0 {
        assert(no_spaces(s.drop_last()));
        lemma_strip_no_spaces(s.drop_last());
        assert(!is_space_char(s.last()));
        assert(s.drop_last().push(s.last()) =~= s);
    }
}

/// Stripping a single whitespace character leaves nothing.
proof fn lemma_strip_one_space(c: char)
    requires
        is_space_char(c),
    ensures
        strip_spaces(seq![c]) == Seq::<char>::empty(),
{
    reveal_with_fuel(Seq::filter, 2);
    let s = seq![c];
    assert(s.drop_last() =~= Seq::<char>::empty());
    assert(strip_spaces(Seq::<char>::empty()) =~= Seq::<char>::empty());
    assert(strip_spaces(s) =~= Seq::<char>::empty());
}

/// An empty character sequence carries the empty letter multiset.
proof fn lemma_to_multiset_empty(s: Seq<char>)
    requires
        s.len() == 0,
    ensures
        s.to_multiset() == Multiset::<char>::empty(),
{
    s.to_multiset_ensures();
    assert forall|x: char| s.to_multiset().count(x) == 0 by {
        if s.to_multiset().count(x) > 0 {
            assert(s.contains(x));
        }
    }
    assert(s.to_multiset() =~= Multiset::<char>::empty());
}

/// Every phrase found below `t`, stripped of its spaces, uses together
/// exactly the letters of the node's own path and the remaining letters.
pub proof fn lemma_search_sound(t: TrieModel, rem: Seq<char>, root: TrieModel)
    requires
        wf(t),
        wf(root),
        !root.word,
        root.path.len() == 0,
        no_spaces(rem),
        no_spaces(t.path),
    ensures
        forall|q: Seq<char>| #[trigger] spec_search(t, rem, root).contains(q)
            ==> strip_spaces(q).to_multiset() == t.path.to_multiset().add(rem.to_multiset()),
    decreases rem.len(), (if t.word {
        1int
    } else {
        0int
    }), rem.len() + 1,
{
    broadcast use vstd::seq_lib::group_seq_lib_default;

    lemma_to_multiset_empty(Seq::<char>::empty());
    if rem.len() == 0 {
        lemma_to_multiset_empty(rem);
        if t.word {
            lemma_strip_no_spaces(t.path);
            assert forall|q: Seq<char>| #[trigger] spec_search(t, rem, root).contains(q)
                implies strip_spaces(q).to_multiset() == t.path.to_multiset().add(
                rem.to_multiset(),
            ) by {
                assert(q == t.path);
                assert(t.path.to_multiset().add(rem.to_multiset()) =~= t.path.to_multiset());
            }
        }
    } else {
        if t.word {
            lemma_search_sound(root, rem, root);
        }
        lemma_distinct_of_contains(rem);
        lemma_search_cs_sound(t, rem, distinct_of(rem), root);
        let boundary = if t.word {
            with_prefix(t.path, spec_search(root, rem, root))
        } else {
            Seq::<Seq<char>>::empty()
        };
        let descent = spec_search_cs(t, rem, distinct_of(rem), root);
        assert forall|q: Seq<char>| #[trigger] spec_search(t, rem, root).contains(q)
            implies strip_spaces(q).to_multiset() == t.path.to_multiset().add(
            rem.to_multiset(),
        ) by {
            let whole = spec_search(t, rem, root);
            let k = choose|k: int| 0 <= k < whole.len() && whole[k] == q;
            if k < boundary.len() {
                let inner = spec_search(root, rem, root);
                let q2 = inner[k];
                assert(q == t.path + seq![' '] + q2);
                assert(inner.contains(q2));
                assert(strip_spaces(q2).to_multiset() == root.path.to_multiset().add(
                    rem.to_multiset(),
                ));
                lemma_to_multiset_empty(root.path);
                assert(strip_spaces(q2).to_multiset() =~= rem.to_multiset());
                lemma_strip_no_spaces(t.path);
                lemma_strip_one_space(' ');
                assert(strip_spaces(t.path + seq![' ']) == strip_spaces(t.path) + strip_spaces(
                    seq![' '],
                ));
                assert(strip_spaces(t.path) + strip_spaces(seq![' ']) =~= t.path);
                assert(strip_spaces(q) == strip_spaces(t.path + seq![' ']) + strip_spaces(q2));
                assert(strip_spaces(q) == t.path + strip_spaces(q2));
                lemma_multiset_commutative(t.path, strip_spaces(q2));
                assert(strip_spaces(q).to_multiset() =~= t.path.to_multiset().add(
                    rem.to_multiset(),
                ));
            } else {
                assert(descent[k - boundary.len()] == q);
                assert(descent.contains(q));
            }
        }
    }
}

/// Every phrase found by descending along the candidate characters, stripped
/// of its spaces, uses together exactly the letters of the node's own path
/// and the remaining letters.
proof fn lemma_search_cs_sound(t: TrieModel, rem: Seq<char>, cs: Seq<char>, root: TrieModel)
    requires
        wf(t),
        wf(root),
        !root.word,
        root.path.len() == 0,
        no_spaces(rem),
        no_spaces(t.path),
    ensures
        forall|q: Seq<char>| #[trigger] spec_search_cs(t, rem, cs, root).contains(q)
            ==> strip_spaces(q).to_multiset() == t.path.to_multiset().add(rem.to_multiset()),
    decreases rem.len(), (if t.word {
        1int
    } else {
        0int
    }), cs.len(),
{
    if cs.len() > 0 {
        let c = cs[0];
        lemma_search_cs_sound(t, rem, cs.drop_first(), root);
        if rem.contains(c) && has_child(t, c) {
            let child = child_of(t, c);
            lemma_key_index(t.children, c);
            let ki = key_index(t.children, c);
            assert(t.children[ki].1.path == t.path.push(t.children[ki].0) && wf(
                t.children[ki].1,
            ));
            lemma_remove_value(rem, c);
            let rem2 = rem.remove_value(c);
            assert(!is_space_char(c)) by {
                let ci = choose|ci: int| 0 <= ci < rem.len() && rem[ci] == c;
            }
            assert forall|x: int| 0 <= x < child.path.len() implies !is_space_char(
                child.path[x],
            ) by {
                if x < t.path.len() {
                    assert(child.path[x] == t.path[x]);
                } else {
                    assert(child.path[x] == c);
                }
            }
            lemma_search_sound(child, rem2, root);
            broadcast use vstd::seq_lib::group_to_multiset_ensures;

            assert(child.path.to_multiset() =~= t.path.to_multiset().insert(c));
            assert(child.path.to_multiset().add(rem2.to_multiset()) =~= t.path.to_multiset().add(
                rem.to_multiset(),
            ));
        }
        assert forall|q: Seq<char>| #[trigger] spec_search_cs(t, rem, cs, root).contains(q)
            implies strip_spaces(q).to_multiset() == t.path.to_multiset().add(
            rem.to_multiset(),
        ) by {
            let a = search_here(t, rem, c, root);
            let b = spec_search_cs(t, rem, cs.drop_first(), root);
            assert(spec_search_cs(t, rem, cs, root) == a + b);
            let whole = a + b;
            let k = choose|k: int| 0 <= k < whole.len() && whole[k] == q;
            if k < a.len() {
                assert(a[k] == q);
                assert(a.contains(q));
                if !(rem.contains(c) && has_child(t, c)) {
                    assert(a.len() == 0);
                }
                assert(spec_search(child_of(t, c), rem.remove_value(c), root).contains(q));
            } else {
                assert(b[k - a.len()] == q);
                assert(b.contains(q));
            }
        }
    }
}

/// Whatever descending along `c` finds is found under any candidate list
/// that holds `c`.
proof fn lemma_search_cs_covers(
    t: TrieModel,
    rem: Seq<char>,
    cs: Seq<char>,
    c: char,
    x: Seq<char>,
    root: TrieModel,
)
    requires
        !root.word,
        cs.contains(c),
        search_here(t, rem, c, root).contains(x),
    ensures
        spec_search_cs(t, rem, cs, root).contains(x),
    decreases cs.len(),
{
    let a = search_here(t, rem, cs[0], root);
    let b = spec_search_cs(t, rem, cs.drop_first(), root);
    if cs[0] == c {
        let k = choose|k: int| 0 <= k < a.len() && a[k] == x;
        assert((a + b)[k] == x);
        assert(spec_search_cs(t, rem, cs, root).contains(x));
    } else {
        assert(cs.drop_first().contains(c)) by {
            let k = choose|k: int| 0 <= k < cs.len() && cs[k] == c;
            assert(cs.drop_first()[k - 1] == c);
        }
        lemma_search_cs_covers(t, rem, cs.drop_first(), c, x, root);
        let k = choose|k: int| 0 <= k < b.len() && b[k] == x;
        assert((a + b)[a.len() + k] == x);
        assert(spec_search_cs(t, rem, cs, root).contains(x));
    }
}

/// A word the trie completes from the node `t` is found by the search on
/// exactly the word's remaining letters, and comes out as the node's path
/// extended by those letters.
pub proof fn lemma_search_finds_word(t: TrieModel, rem: Seq<char>, root: TrieModel)
    requires
        wf(t),
        !root.word,
        contains_word(t, rem),
    ensures
        spec_search(t, rem, root).contains(t.path + rem),
    decreases rem.len(),
{
    if rem.len() == 0 {
        assert(t.word);
        assert(t.path + rem =~= t.path);
        assert(spec_search(t, rem, root)[0] == t.path);
    } else {
        let c = rem[0];
        assert(has_child(t, c));
        let child = child_of(t, c);
        lemma_key_index(t.children, c);
        let ki = key_index(t.children, c);
        assert(t.children[ki].1.path == t.path.push(t.children[ki].0) && wf(t.children[ki].1));
        lemma_search_finds_word(child, rem.drop_first(), root);
        lemma_remove_value_first(rem);
        assert(child.path + rem.drop_first() =~= t.path + rem);
        assert(rem.contains(c));
        assert(search_here(t, rem, c, root).contains(t.path + rem));
        lemma_distinct_of_contains(rem);
        assert(distinct_of(rem).contains(c));
        lemma_search_cs_covers(t, rem, distinct_of(rem), c, t.path + rem, root);
        let boundary = if t.word {
            with_prefix(t.path, spec_search(root, rem, root))
        } else {
            Seq::<Seq<char>>::empty()
        };
        let b = spec_search_cs(t, rem, distinct_of(rem), root);
        let k = choose|k: int| 0 <= k < b.len() && b[k] == t.path + rem;
        assert(spec_search(t, rem, root)[boundary.len() + k] == t.path + rem);
        assert(spec_search(t, rem, root).contains(t.path + rem));
    }
}

/// Round-trip containment: a word the dictionary holds is among the results
/// of searching for its own letters — a word is its own anagram. Stated for
/// words already in normalized form (lowercase, no whitespace), which is the
/// form every inserted word is stored in.
pub proof fn lemma_word_is_found(t: TrieModel, w: Seq<char>)
    requires
        wf(t),
        t.path.len() == 0,
        !t.word,
        contains_word(t, w),
        normalize(w) == w,
    ensures
        spec_search(t, normalize(w), t).contains(w),
{
    lemma_search_finds_word(t, w, t);
    assert(t.path + w =~= w);
}

/// Round-trip containment for a parsed dictionary: a word inserted from the
/// word list — already in its stored, normalized form — is among the results
/// of searching for its own letters.
pub proof fn lemma_parsed_word_is_found(lines: Seq<Seq<char>>, w: Seq<char>)
    requires
        exists|i: int| 0 <= i < lines.len() && lower_of(#[trigger] lines[i]) == w,
        w.len() > 0,
        normalize(w) == w,
    ensures
        spec_search(spec_parse(lines), normalize(w), spec_parse(lines)).contains(w),
{
    lemma_spec_parse_wf(lines);
    lemma_parse_contains(lines, w);
    lemma_word_is_found(spec_parse(lines), w);
}

/// Multiset correctness: every phrase found for a query uses, ignoring its
/// spaces, exactly the letters of the normalized query.
pub proof fn lemma_results_are_anagrams(t: TrieModel, target: Seq<char>)
    requires
        wf(t),
        t.path.len() == 0,
        !t.word,
    ensures
        forall|q: Seq<char>| #[trigger] spec_search(t, normalize(target), t).contains(q)
            ==> strip_spaces(q).to_multiset() == normalize(target).to_multiset(),
{
    lemma_normalize_no_spaces(target);
    lemma_search_sound(t, normalize(target), t);
    lemma_to_multiset_empty(t.path);
    assert forall|q: Seq<char>| #[trigger] spec_search(t, normalize(target), t).contains(q)
        implies strip_spaces(q).to_multiset() == normalize(target).to_multiset() by {
        assert(t.path.to_multiset().add(normalize(target).to_multiset()) =~= normalize(
            target,
        ).to_multiset());
    }
}

/// The given words joined by single spaces.
pub open spec fn joined(ws: Seq<Seq<char>>) -> Seq<char>
    decreases ws.len(),
{
    if ws.len() == 0 {
        Seq::empty()
    } else if ws.len() == 1 {
        ws[0]
    } else {
        ws[0] + seq![' '] + joined(ws.drop_first())
    }
}

/// Every entry of `ws` is a word of the dictionary `root`.
pub open spec fn all_words(root: TrieModel, ws: Seq<Seq<char>>) -> bool {
    forall|i: int| 0 <= i < ws.len() ==> contains_word(root, #[trigger] ws[i])
}

/// The words `seq![path + s] + ws` joined by single spaces: a phrase whose
/// first word extends `path` by `s`.
pub open spec fn glued(path: Seq<char>, s: Seq<char>, ws: Seq<Seq<char>>) -> Seq<char> {
    joined(seq![path + s] + ws)
}

/// `q` extends the path of `t` to a word that `t`'s subtree completes and
/// then continues with words of the dictionary, all joined by single spaces.
pub open spec fn decomposes(t: TrieModel, root: TrieModel, q: Seq<char>) -> bool {
    exists|s: Seq<char>, ws: Seq<Seq<char>>|
        contains_word(t, s) && all_words(root, ws) && q == #[trigger] glued(t.path, s, ws)
}

/// `t` is the node of `root` reached along the path `p`.
pub open spec fn subnode(root: TrieModel, p: Seq<char>, t: TrieModel) -> bool
    decreases p.len(),
{
    if p.len() == 0 {
        t == root
    } else {
        has_child(root, p[0]) && subnode(child_of(root, p[0]), p.drop_first(), t)
    }
}

/// A suffix completed below a node is, with the node's path in front, a word
/// of the whole dictionary.
proof fn lemma_subnode_word(root: TrieModel, p: Seq<char>, t: TrieModel, s: Seq<char>)
    requires
        subnode(root, p, t),
        contains_word(t, s),
    ensures
        contains_word(root, p + s),
    decreases p.len(),
{
    if p.len() == 0 {
        assert(p + s =~= s);
    } else {
        lemma_subnode_word(child_of(root, p[0]), p.drop_first(), t, s);
        assert((p + s)[0] == p[0]);
        assert((p + s).drop_first() =~= p.drop_first() + s);
    }
}

/// Stepping to a child extends the path a node is reached along.
proof fn lemma_subnode_extend(root: TrieModel, p: Seq<char>, t: TrieModel, c: char)
    requires
        subnode(root, p, t),
        has_child(t, c),
    ensures
        subnode(root, p.push(c), child_of(t, c)),
    decreases p.len(),
{
    reveal_with_fuel(subnode, 2);
    if p.len() == 0 {
        assert(p.push(c)[0] == c);
        assert(p.push(c).drop_first() =~= Seq::<char>::empty());
    } else {
        lemma_subnode_extend(child_of(root, p[0]), p.drop_first(), t, c);
        assert(p.push(c)[0] == p[0]);
        assert(p.push(c).drop_first() =~= p.drop_first().push(c));
    }
}

/// Every phrase found below `t` decomposes into the word that `t`'s subtree
/// completes and further dictionary words, joined by single spaces.
proof fn lemma_search_words(t: TrieModel, rem: Seq<char>, root: TrieModel)
    requires
        wf(t),
        wf(root),
        !root.word,
        root.path.len() == 0,
        subnode(root, t.path, t),
    ensures
        forall|q: Seq<char>| #[trigger] spec_search(t, rem, root).contains(q) ==> decomposes(
            t,
            root,
            q,
        ),
    decreases rem.len(), (if t.word {
        1int
    } else {
        0int
    }), rem.len() + 1,
{
    let empty_s = Seq::<char>::empty();
    let empty_ws = Seq::<Seq<char>>::empty();
    if rem.len() == 0 {
        if t.word {
            assert forall|q: Seq<char>| #[trigger] spec_search(t, rem, root).contains(q)
                implies decomposes(t, root, q) by {
                assert(q == t.path);
                assert(contains_word(t, empty_s));
                assert((seq![t.path + empty_s] + empty_ws).len() == 1);
                assert((seq![t.path + empty_s] + empty_ws)[0] == t.path + empty_s);
                assert(glued(t.path, empty_s, empty_ws) == t.path + empty_s);
                assert(t.path + empty_s =~= t.path);
                assert(q == glued(t.path, empty_s, empty_ws));
            }
        }
    } else {
        if t.word {
            lemma_search_words(root, rem, root);
        }
        lemma_distinct_of_contains(rem);
        lemma_search_cs_words(t, rem, distinct_of(rem), root);
        let boundary = if t.word {
            with_prefix(t.path, spec_search(root, rem, root))
        } else {
            Seq::<Seq<char>>::empty()
        };
        let descent = spec_search_cs(t, rem, distinct_of(rem), root);
        assert forall|q: Seq<char>| #[trigger] spec_search(t, rem, root).contains(q)
            implies decomposes(t, root, q) by {
            let whole = spec_search(t, rem, root);
            let k = choose|k: int| 0 <= k < whole.len() && whole[k] == q;
            if k < boundary.len() {
                let inner = spec_search(root, rem, root);
                let q2 = inner[k];
                assert(q == t.path + seq![' '] + q2);
                assert(inner.contains(q2));
                assert(decomposes(root, root, q2));
                let (s2, ws2) = choose|s2: Seq<char>, ws2: Seq<Seq<char>>|
                    contains_word(root, s2) && all_words(root, ws2) && q2 == glued(
                        root.path,
                        s2,
                        ws2,
                    );
                let ws0 = seq![root.path + s2] + ws2;
                assert(all_words(root, ws0)) by {
                    assert forall|i: int| 0 <= i < ws0.len() implies contains_word(
                        root,
                        #[trigger] ws0[i],
                    ) by {
                        if i == 0 {
                            assert(root.path + s2 =~= s2);
                        } else {
                            assert(ws0[i] == ws2[i - 1]);
                        }
                    }
                }
                let lst = seq![t.path + empty_s] + ws0;
                assert(lst.len() >= 2);
                assert(lst[0] == t.path + empty_s);
                assert(lst.drop_first() =~= ws0);
                assert(joined(lst) == lst[0] + seq![' '] + joined(ws0));
                assert(t.path + empty_s =~= t.path);
                assert(q2 == joined(ws0));
                assert(q == glued(t.path, empty_s, ws0));
                assert(contains_word(t, empty_s));
                assert(decomposes(t, root, q));
            } else {
                assert(descent[k - boundary.len()] == q);
                assert(descent.contains(q));
            }
        }
    }
}

/// Every phrase found by descending along the candidate characters
/// decomposes into dictionary words.
proof fn lemma_search_cs_words(t: TrieModel, rem: Seq<char>, cs: Seq<char>, root: TrieModel)
    requires
        wf(t),
        wf(root),
        !root.word,
        root.path.len() == 0,
        subnode(root, t.path, t),
    ensures
        forall|q: Seq<char>| #[trigger] spec_search_cs(t, rem, cs, root).contains(q)
            ==> decomposes(t, root, q),
    decreases rem.len(), (if t.word {
        1int
    } else {
        0int
    }), cs.len(),
{
    if cs.len() > 0 {
        let c = cs[0];
        lemma_search_cs_words(t, rem, cs.drop_first(), root);
        if rem.contains(c) && has_child(t, c) {
            let child = child_of(t, c);
            lemma_key_index(t.children, c);
            let ki = key_index(t.children, c);
            assert(t.children[ki].1.path == t.path.push(t.children[ki].0) && wf(
                t.children[ki].1,
            ));
            lemma_remove_value(rem, c);
            lemma_subnode_extend(root, t.path, t, c);
            lemma_search_words(child, rem.remove_value(c), root);
        }
        assert forall|q: Seq<char>| #[trigger] spec_search_cs(t, rem, cs, root).contains(q)
            implies decomposes(t, root, q) by {
            let a = search_here(t, rem, c, root);
            let b = spec_search_cs(t, rem, cs.drop_first(), root);
            assert(spec_search_cs(t, rem, cs, root) == a + b);
            let whole = a + b;
            let k = choose|k: int| 0 <= k < whole.len() && whole[k] == q;
            if k < a.len() {
                assert(a[k] == q);
                assert(a.contains(q));
                if !(rem.contains(c) && has_child(t, c)) {
                    assert(a.len() == 0);
                }
                let child = child_of(t, c);
                assert(spec_search(child, rem.remove_value(c), root).contains(q));
                assert(decomposes(child, root, q));
                let (s2, ws2) = choose|s2: Seq<char>, ws2: Seq<Seq<char>>|
                    contains_word(child, s2) && all_words(root, ws2) && q == glued(
                        child.path,
                        s2,
                        ws2,
                    );
                let s0 = seq![c] + s2;
                assert(s0[0] == c);
                assert(s0.drop_first() =~= s2);
                assert(contains_word(t, s0));
                assert(child.path + s2 =~= t.path + s0);
                assert(seq![child.path + s2] + ws2 =~= seq![t.path + s0] + ws2);
                assert(q == glued(t.path, s0, ws2));
                assert(decomposes(t, root, q));
            } else {
                assert(b[k - a.len()] == q);
                assert(b.contains(q));
            }
        }
    }
}

/// Dictionary-phrase soundness: every result of a search is one or more
/// words of the dictionary, joined by single spaces.
pub proof fn lemma_results_are_dictionary_phrases(t: TrieModel, target: Seq<char>)
    requires
        wf(t),
        t.path.len() == 0,
        !t.word,
    ensures
        forall|q: Seq<char>| #[trigger] spec_search(t, normalize(target), t).contains(q)
            ==> decomposes(t, t, q),
{
    lemma_search_words(t, normalize(target), t);
}

/// Case and whitespace insensitivity: two queries with the same normalized
/// form have exactly the same results in any dictionary.
pub proof fn lemma_query_insensitive(t: TrieModel, a: Seq<char>, b: Seq<char>)
    requires
        normalize(a) == normalize(b),
    ensures
        spec_search(t, normalize(a), t) == spec_search(t, normalize(b), t),
{
}

} // verus!
