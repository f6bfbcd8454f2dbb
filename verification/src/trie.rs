//! The dictionary trie: an ownership tree of nodes, each keyed by the
//! character that reaches it from its parent, each node carrying the full
//! path from the root and a mark saying whether that path is a dictionary
//! word.

use crate::text::lower_of;
use crate::text::lowercase;
use crate::text::push_char;
use crate::text::views_of;
use crate::text::get_c;
use vstd::prelude::*;

verus! {

/// The mathematical model of a trie node: the path from the root, the word
/// mark, and the ordered list of children with their edge characters.
#[verifier::ext_equal]
pub ghost struct TrieModel {
    pub path: Seq<char>,
    pub word: bool,
    pub children: Seq<(char, TrieModel)>,
}

/// A dictionary trie node. The root of a dictionary has an empty path and no
/// word mark; a node exists for a character under a parent exactly when some
/// inserted word extends the parent's path with that character.
pub struct Dictionary {
    pub path: String,
    pub word: bool,
    pub children: Vec<(char, Dictionary)>,
}

impl Dictionary {
    /// The model of this node and its subtree.
    pub open spec fn model(self) -> TrieModel
        decreases self,
    {
        TrieModel { path: self.path@, word: self.word, children: model_children(self.children@) }
    }
}

/// The models of a child list, in order.
pub open spec fn model_children(cs: Seq<(char, Dictionary)>) -> Seq<(char, TrieModel)>
    decreases cs,
{
    if cs.len() == 0 {
        Seq::empty()
    } else {
        model_children(cs.drop_last()).push((cs.last().0, cs.last().1.model()))
    }
}

/// The model of a child list has the same length and is the model of each
/// entry, pointwise.
pub proof fn lemma_model_children(cs: Seq<(char, Dictionary)>)
    ensures
        model_children(cs).len() == cs.len(),
        forall|i: int|
            0 <= i < cs.len() ==> model_children(cs)[i] == (cs[i].0, cs[i].1.model()),
    decreases cs.len(),
{
    if cs.len() > 0 {
        lemma_model_children(cs.drop_last());
    }
}

/// The model of the empty trie: the bare root.
pub open spec fn empty_model() -> TrieModel {
    TrieModel { path: Seq::empty(), word: false, children: Seq::empty() }
}

/// The index of the first entry keyed by `c` in a child list, or -1 when no
/// entry has that key.
pub open spec fn key_index<V>(cs: Seq<(char, V)>, c: char) -> int
    decreases cs.len(),
{
    if cs.len() == 0 {
        -1
    } else if cs[0].0 == c {
        0
    } else if key_index(cs.drop_first(), c) < 0 {
        -1
    } else {
        key_index(cs.drop_first(), c) + 1
    }
}

/// Whether the node has a child for the character `c`.
pub open spec fn has_child(t: TrieModel, c: char) -> bool {
    key_index(t.children, c) >= 0
}

/// The child of `t` reached along the character `c`.
pub open spec fn child_of(t: TrieModel, c: char) -> TrieModel {
    t.children[key_index(t.children, c)].1
}

/// `key_index` points at an entry with the key, and at the first one.
pub proof fn lemma_key_index<V>(cs: Seq<(char, V)>, c: char)
    ensures
        key_index(cs, c) >= 0 ==> 0 <= key_index(cs, c) < cs.len() && cs[key_index(cs, c)].0
            == c && forall|j: int| 0 <= j < key_index(cs, c) ==> cs[j].0 != c,
        key_index(cs, c) < 0 ==> forall|j: int| 0 <= j < cs.len() ==> cs[j].0 != c,
    decreases cs.len(),
{
    if cs.len() > 0 && cs[0].0 != c {
        lemma_key_index(cs.drop_first(), c);
        if key_index(cs, c) < 0 {
            assert forall|j: int| 0 <= j < cs.len() implies cs[j].0 != c by {
                if j > 0 {
                    assert(cs.drop_first()[j - 1] == cs[j]);
                }
            }
        } else {
            assert forall|j: int| 0 <= j < key_index(cs, c) implies cs[j].0 != c by {
                if j > 0 {
                    assert(cs.drop_first()[j - 1] == cs[j]);
                }
            }
        }
    }
}

/// A position whose key matches, with no match before it, is what
/// `key_index` returns.
pub proof fn lemma_key_index_at<V>(cs: Seq<(char, V)>, c: char, i: int)
    requires
        0 <= i < cs.len(),
        cs[i].0 == c,
        forall|j: int| 0 <= j < i ==> cs[j].0 != c,
    ensures
        key_index(cs, c) == i,
    decreases i,
{
    if i > 0 {
        assert(forall|j: int| 0 <= j < cs.drop_first().len() ==> cs.drop_first()[j] == cs[j + 1]);
        lemma_key_index_at(cs.drop_first(), c, i - 1);
    }
}

/// `key_index` looks only at the keys of the list.
pub proof fn lemma_key_index_same_keys<V, W>(a: Seq<(char, V)>, b: Seq<(char, W)>, c: char)
    requires
        a.len() == b.len(),
        forall|j: int| 0 <= j < a.len() ==> a[j].0 == b[j].0,
    ensures
        key_index(a, c) == key_index(b, c),
    decreases a.len(),
{
    if a.len() > 0 && a[0].0 != c {
        assert(forall|j: int| 0 <= j < a.drop_first().len() ==> a.drop_first()[j] == a[j + 1]);
        assert(forall|j: int| 0 <= j < b.drop_first().len() ==> b.drop_first()[j] == b[j + 1]);
        lemma_key_index_same_keys(a.drop_first(), b.drop_first(), c);
    }
}

/// Well-formed subtree: the child keys are distinct, and every child's path
/// is its parent's path extended with the edge character, recursively.
pub open spec fn wf(t: TrieModel) -> bool
    decreases t,
{
    (forall|i: int, j: int|
        0 <= i < j < t.children.len() ==> t.children[i].0 != t.children[j].0) && (forall|i: int|
        0 <= i < t.children.len() ==> (#[trigger] t.children[i]).1.path == t.path.push(
            t.children[i].0,
        ) && wf(t.children[i].1))
}

/// Whether the subtree under `t` completes the given character sequence as a
/// dictionary word.
pub open spec fn contains_word(t: TrieModel, s: Seq<char>) -> bool
    decreases s.len(),
{
    if s.len() == 0 {
        t.word
    } else if has_child(t, s[0]) {
        contains_word(child_of(t, s[0]), s.drop_first())
    } else {
        false
    }
}

/// The trie after inserting the word `w` under the node `t`: nodes are
/// created along the path of `w` as needed, keeping the order of existing
/// children, and the node the path ends on is marked a word.
pub open spec fn spec_add(t: TrieModel, w: Seq<char>) -> TrieModel
    decreases w.len(),
{
    if w.len() == 0 {
        TrieModel { word: true, ..t }
    } else {
        let c = w[0];
        let i = key_index(t.children, c);
        if i >= 0 {
            TrieModel {
                children: t.children.update(i, (c, spec_add(t.children[i].1, w.drop_first()))),
                ..t
            }
        } else {
            let fresh = TrieModel { path: t.path.push(c), word: false, children: Seq::empty() };
            TrieModel { children: t.children.push((c, spec_add(fresh, w.drop_first()))), ..t }
        }
    }
}

/// The dictionary built from a list of lines, in order: each line is
/// lowercased and inserted; empty lines are skipped, since the trie accepts
/// no empty entry.
pub open spec fn spec_parse(lines: Seq<Seq<char>>) -> TrieModel
    decreases lines.len(),
{
    if lines.len() == 0 {
        empty_model()
    } else {
        let prev = spec_parse(lines.drop_last());
        let w = lower_of(lines.last());
        if w.len() == 0 {
            prev
        } else {
            spec_add(prev, w)
        }
    }
}

/// Inserting a word preserves well-formedness and the node's path, and marks
/// the node itself only when the word ends right there.
pub proof fn lemma_add_wf(t: TrieModel, w: Seq<char>)
    requires
        wf(t),
    ensures
        wf(spec_add(t, w)),
        spec_add(t, w).path == t.path,
        spec_add(t, w).word == (t.word || w.len() == 0),
    decreases w.len(),
{
    if w.len() > 0 {
        let c = w[0];
        let i = key_index(t.children, c);
        let r = spec_add(t, w);
        lemma_key_index(t.children, c);
        if i >= 0 {
            lemma_add_wf(t.children[i].1, w.drop_first());
            assert forall|k: int| 0 <= k < r.children.len() implies (
            #[trigger] r.children[k]).1.path == r.path.push(r.children[k].0) && wf(
                r.children[k].1,
            ) by {
                if k != i {
                    assert(r.children[k] == t.children[k]);
                }
            }
        } else {
            let fresh = TrieModel { path: t.path.push(c), word: false, children: Seq::empty() };
            assert(wf(fresh));
            lemma_add_wf(fresh, w.drop_first());
            assert forall|k: int| 0 <= k < r.children.len() implies (
            #[trigger] r.children[k]).1.path == r.path.push(r.children[k].0) && wf(
                r.children[k].1,
            ) by {
                if k < t.children.len() {
                    assert(r.children[k] == t.children[k]);
                }
            }
            assert forall|k: int, j: int|
                0 <= k < j < r.children.len() implies r.children[k].0 != r.children[j].0 by {
                if j < t.children.len() {
                    assert(t.children[k].0 != t.children[j].0);
                } else {
                    assert(t.children[k].0 != c);
                }
            }
        }
    }
}

/// Inserting a word changes the word set of the trie by exactly that word:
/// afterwards a sequence is contained if and only if it is the inserted word
/// or was contained before.
pub proof fn lemma_add_contains(t: TrieModel, w: Seq<char>, s: Seq<char>)
    ensures
        contains_word(spec_add(t, w), s) <==> (s == w || contains_word(t, s)),
    decreases w.len(),
{
    let t1 = spec_add(t, w);
    if w.len() == 0 {
        if s.len() == 0 {
            assert(s =~= w);
        } else {
            assert(s != w);
            assert(contains_word(t1, s) == contains_word(t, s));
        }
    } else {
        let c = w[0];
        let i = key_index(t.children, c);
        lemma_key_index(t.children, c);
        if s.len() == 0 {
            assert(s != w);
            assert(t1.word == t.word);
        } else {
            let d = s[0];
            if s == w {
                assert(d == c);
            }
            if i >= 0 {
                let child = t.children[i].1;
                let sub = spec_add(child, w.drop_first());
                assert(forall|j: int|
                    0 <= j < t1.children.len() ==> t1.children[j].0 == t.children[j].0);
                lemma_key_index_same_keys(t1.children, t.children, d);
                if d == c {
                    assert(child_of(t1, d) == sub);
                    lemma_add_contains(child, w.drop_first(), s.drop_first());
                    if s.drop_first() == w.drop_first() && d == c {
                        assert forall|k: int| 0 <= k < s.len() implies s[k] == w[k] by {
                            if k > 0 {
                                assert(s.drop_first()[k - 1] == s[k]);
                                assert(w.drop_first()[k - 1] == w[k]);
                            }
                        }
                        assert(s =~= w);
                    }
                } else {
                    let k = key_index(t.children, d);
                    lemma_key_index(t.children, d);
                    if k >= 0 {
                        assert(k != i);
                        assert(child_of(t1, d) == child_of(t, d));
                    }
                    assert(s != w);
                }
            } else {
                let fresh = TrieModel {
                    path: t.path.push(c),
                    word: false,
                    children: Seq::empty(),
                };
                let sub = spec_add(fresh, w.drop_first());
                if d == c {
                    lemma_key_index_at(t1.children, c, t.children.len() as int);
                    assert(child_of(t1, d) == sub);
                    lemma_add_contains(fresh, w.drop_first(), s.drop_first());
                    assert(!contains_word(fresh, s.drop_first()));
                    assert(!contains_word(t, s));
                    if s.drop_first() == w.drop_first() && d == c {
                        assert forall|k: int| 0 <= k < s.len() implies s[k] == w[k] by {
                            if k > 0 {
                                assert(s.drop_first()[k - 1] == s[k]);
                                assert(w.drop_first()[k - 1] == w[k]);
                            }
                        }
                        assert(s =~= w);
                    }
                } else {
                    let k = key_index(t.children, d);
                    lemma_key_index(t.children, d);
                    if k >= 0 {
                        lemma_key_index_at(t1.children, d, k);
                        assert(child_of(t1, d) == child_of(t, d));
                    } else {
                        lemma_key_index(t1.children, d);
                        if key_index(t1.children, d) >= 0 {
                            let ki = key_index(t1.children, d);
                            if ki < t.children.len() {
                                assert(t.children[ki].0 != d);
                            }
                            assert(false);
                        }
                    }
                    assert(s != w);
                }
            }
        }
    }
}

/// Idempotent construction: inserting the same word a second time returns the
/// very same trie, so every later query behaves as it did after the first
/// insertion.
pub proof fn lemma_add_twice(t: TrieModel, w: Seq<char>)
    ensures
        spec_add(spec_add(t, w), w) == spec_add(t, w),
    decreases w.len(),
{
    let t1 = spec_add(t, w);
    let t2 = spec_add(t1, w);
    if w.len() == 0 {
        assert(t2 =~= t1);
    } else {
        let c = w[0];
        let i = key_index(t.children, c);
        lemma_key_index(t.children, c);
        if i >= 0 {
            let sub = spec_add(t.children[i].1, w.drop_first());
            assert(forall|j: int|
                0 <= j < t1.children.len() ==> t1.children[j].0 == t.children[j].0);
            lemma_key_index_same_keys(t1.children, t.children, c);
            assert(t1.children[i] == (c, sub));
            lemma_add_twice(t.children[i].1, w.drop_first());
            assert(t2.children =~= t1.children);
            assert(t2 =~= t1);
        } else {
            let fresh = TrieModel { path: t.path.push(c), word: false, children: Seq::empty() };
            let sub = spec_add(fresh, w.drop_first());
            lemma_key_index_at(t1.children, c, t.children.len() as int);
            assert(t1.children[t.children.len() as int] == (c, sub));
            lemma_add_twice(fresh, w.drop_first());
            assert(t2.children =~= t1.children);
            assert(t2 =~= t1);
        }
    }
}

/// The bare root holds no word.
proof fn lemma_empty_contains_nothing(s: Seq<char>)
    ensures
        !contains_word(empty_model(), s),
{
    if s.len() > 0 {
        assert(key_index(empty_model().children, s[0]) == -1);
    }
}

/// A parsed dictionary holds exactly the nonempty lowercased lines of its
/// word list: a sequence is a word of the trie if and only if it is the
/// lowercasing of some line.
pub proof fn lemma_parse_contains(lines: Seq<Seq<char>>, s: Seq<char>)
    ensures
        contains_word(spec_parse(lines), s) <==> (s.len() > 0 && exists|i: int|
            0 <= i < lines.len() && lower_of(#[trigger] lines[i]) == s),
    decreases lines.len(),
{
    if lines.len() == 0 {
        lemma_empty_contains_nothing(s);
    } else {
        lemma_parse_contains(lines.drop_last(), s);
        let prev = spec_parse(lines.drop_last());
        let w = lower_of(lines.last());
        if w.len() > 0 {
            lemma_add_contains(prev, w, s);
        }
        if contains_word(spec_parse(lines), s) {
            if w.len() > 0 && s == w {
                assert(lower_of(lines[lines.len() - 1]) == s);
            } else {
                assert(contains_word(prev, s));
                let i = choose|i: int|
                    0 <= i < lines.drop_last().len() && lower_of(
                        #[trigger] lines.drop_last()[i],
                    ) == s;
                assert(lines.drop_last()[i] == lines[i]);
                assert(lower_of(lines[i]) == s);
            }
        }
        if s.len() > 0 && exists|i: int|
            0 <= i < lines.len() && lower_of(#[trigger] lines[i]) == s {
            let i = choose|i: int| 0 <= i < lines.len() && lower_of(#[trigger] lines[i]) == s;
            if i == lines.len() - 1 {
                assert(s == w);
                assert(contains_word(spec_parse(lines), s));
            } else {
                assert(lines.drop_last()[i] == lines[i]);
                assert(contains_word(prev, s));
                assert(contains_word(spec_parse(lines), s));
            }
        }
    }
}

/// A parsed dictionary is well formed, is rooted at the empty path, and does
/// not mark its root as a word.
pub proof fn lemma_spec_parse_wf(lines: Seq<Seq<char>>)
    ensures
        wf(spec_parse(lines)),
        spec_parse(lines).path.len() == 0,
        !spec_parse(lines).word,
    decreases lines.len(),
{
    if lines.len() > 0 {
        lemma_spec_parse_wf(lines.drop_last());
        let w = lower_of(lines.last());
        if w.len() > 0 {
            lemma_add_wf(spec_parse(lines.drop_last()), w);
        }
    }
}

impl Dictionary {
    /// Provide a default value to build from: the empty trie.
    pub fn default() -> (r: Dictionary)
        ensures
            r.model() == empty_model(),
    {
        let r = Dictionary { path: String::new(), word: false, children: Vec::new() };
        proof {
            lemma_model_children(r.children@);
            assert(r.model() =~= empty_model());
        }
        r
    }

    /// Construct a node whose path is the provided string, not yet a word,
    /// with no children.
    pub fn from_str(path: String) -> (r: Dictionary)
        ensures
            r.model() == (TrieModel { path: path@, word: false, children: Seq::empty() }),
    {
        let r = Dictionary { path, word: false, children: Vec::new() };
        proof {
            lemma_model_children(r.children@);
            assert(r.model() =~= (TrieModel {
                path: r.path@,
                word: false,
                children: Seq::empty(),
            }));
        }
        r
    }

    /// Whether this node marks a complete dictionary word.
    pub fn is_word(&self) -> (r: bool)
        ensures
            r == self.model().word,
    {
        self.word
    }

    /// Add a word into the dictionary.
    pub fn add(self, word: String) -> (r: Dictionary)
        ensures
            r.model() == spec_add(self.model(), word@),
        decreases word@.len(),
    {
        let ghost m = self.model();
        if word.as_str().is_empty() {
            let Dictionary { path, word: _, children } = self;
            let r = Dictionary { path, word: true, children };
            proof {
                assert(r.model() =~= spec_add(m, word@));
            }
            r
        } else {
            let (c, rest) = get_c(&word);
            let Dictionary { path, word: marked, mut children } = self;
            let ghost mc = m.children;
            let ghost cs0 = children@;
            match find_key(&children, c) {
                Some(i) => {
                    let pair = children.remove(i);
                    let sub = pair.1.add(rest);
                    children.insert(i, (c, sub));
                    let r = Dictionary { path, word: marked, children };
                    proof {
                        lemma_model_children(cs0);
                        lemma_model_children(r.children@);
                        lemma_key_index_at::<TrieModel>(mc, c, i as int);
                        assert(r.children@ =~= cs0.update(i as int, (c, sub)));
                        assert(r.model().children =~= mc.update(i as int, (c, sub.model())));
                        assert(r.model() =~= spec_add(m, word@));
                    }
                    r
                },
                None => {
                    let mut child_path = path.clone();
                    push_char(&mut child_path, c);
                    let child = Dictionary::from_str(child_path);
                    let sub = child.add(rest);
                    children.push((c, sub));
                    let r = Dictionary { path, word: marked, children };
                    proof {
                        lemma_model_children(cs0);
                        lemma_model_children(r.children@);
                        lemma_key_index::<TrieModel>(mc, c);
                        assert(key_index(mc, c) < 0);
                        assert(r.children@ =~= cs0.push((c, sub)));
                        assert(r.model().children =~= mc.push((c, sub.model())));
                        assert(r.model() =~= spec_add(m, word@));
                    }
                    r
                },
            }
        }
    }
}

/// The position of the child entry keyed by `c`, if the list has one.
pub(crate) fn find_key(children: &Vec<(char, Dictionary)>, c: char) -> (r: Option<usize>)
    ensures
        match r {
            Some(i) => i < children@.len() && children@[i as int].0 == c && forall|j: int|
                0 <= j < i ==> children@[j].0 != c,
            None => forall|j: int| 0 <= j < children@.len() ==> children@[j].0 != c,
        },
{
    let mut i: usize = 0;
    while i < children.len()
        invariant
            i <= children@.len(),
            forall|j: int| 0 <= j < i ==> children@[j].0 != c,
        decreases children@.len() - i,
    {
        if children[i].0 == c {
            return Some(i);
        }
        i = i + 1;
    }
    None
}

/// Parse a list of lines into a Dictionary: each line is lowercased and
/// inserted in order; empty lines are skipped, since the trie accepts no
/// empty entry.
pub fn parse(lines: Vec<String>) -> (r: Dictionary)
    ensures
        r.model() == spec_parse(views_of(lines@)),
        wf(r.model()),
        r.model().path.len() == 0,
        !r.model().word,
{
    let mut root = Dictionary::default();
    let mut i: usize = 0;
    while i < lines.len()
        invariant
            i <= lines@.len(),
            root.model() == spec_parse(views_of(lines@).take(i as int)),
        decreases lines@.len() - i,
    {
        let lw = lowercase(lines[i].as_str());
        if !lw.as_str().is_empty() {
            root = root.add(lw);
        }
        proof {
            let vs = views_of(lines@);
            assert(vs.take(i + 1).drop_last() =~= vs.take(i as int));
            assert(vs.take(i + 1).last() == lines@[i as int]@);
        }
        i = i + 1;
    }
    proof {
        assert(views_of(lines@).take(lines@.len() as int) =~= views_of(lines@));
        lemma_spec_parse_wf(views_of(lines@));
    }
    root
}

} // verus!
