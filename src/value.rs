//! The common hierarchical value that every provider emits and the merge
//! engine combines.

use crate::error::QuantumConfigError;
use vstd::prelude::*;
use vstd::string::*;

verus! {

broadcast use vstd::std_specs::vec::group_vec_axioms;

/// A configuration value.
///
/// `Float` keeps the decimal text of the number, exactly as it was read, so
/// that the value survives a round trip without any loss.
#[derive(Debug, PartialEq)]
pub enum ConfigValue {
    String(String),
    Bool(bool),
    Int(i64),
    UInt(u64),
    Float(String),
    Array(Vec<ConfigValue>),
    Dict(Vec<(String, ConfigValue)>),
}

/// The mathematical model of a [`ConfigValue`].
pub enum Tree {
    Str(Seq<char>),
    Bool(bool),
    Int(int),
    UInt(int),
    Float(Seq<char>),
    Array(Seq<Tree>),
    Dict(Seq<(Seq<char>, Tree)>),
}

impl ConfigValue {
    /// The model of this value: strings as character sequences, containers
    /// as sequences of models.
    pub open spec fn tree(self) -> Tree
        decreases self,
    {
        match self {
            ConfigValue::String(s) => Tree::Str(s@),
            ConfigValue::Bool(b) => Tree::Bool(b),
            ConfigValue::Int(n) => Tree::Int(n as int),
            ConfigValue::UInt(n) => Tree::UInt(n as int),
            ConfigValue::Float(s) => Tree::Float(s@),
            ConfigValue::Array(vs) => Tree::Array(
                Seq::new(
                    vs.len() as nat,
                    |i: int|
                        if 0 <= i < vs.len() {
                            vs[i].tree()
                        } else {
                            Tree::Bool(false)
                        },
                ),
            ),
            ConfigValue::Dict(es) => Tree::Dict(
                Seq::new(
                    es.len() as nat,
                    |i: int|
                        if 0 <= i < es.len() {
                            (es[i].0@, es[i].1.tree())
                        } else {
                            (Seq::empty(), Tree::Bool(false))
                        },
                ),
            ),
        }
    }
}

impl View for ConfigValue {
    type V = Tree;

    open spec fn view(&self) -> Tree {
        self.tree()
    }
}

/// Whether some entry of `es` has key `k`.
pub open spec fn has_key(es: Seq<(Seq<char>, Tree)>, k: Seq<char>) -> bool {
    exists|i: int| 0 <= i < es.len() && #[trigger] es[i].0 == k
}

/// `i` is the first position of key `k` in `es`.
pub open spec fn first_key_at(es: Seq<(Seq<char>, Tree)>, k: Seq<char>, i: int) -> bool {
    &&& 0 <= i < es.len()
    &&& es[i].0 == k
    &&& forall|j: int| 0 <= j < i ==> #[trigger] es[j].0 != k
}

/// The first position of key `k` in `es` (meaningful where `has_key(es, k)`).
pub open spec fn key_index(es: Seq<(Seq<char>, Tree)>, k: Seq<char>) -> int {
    choose|i: int| first_key_at(es, k, i)
}

/// No two entries of `es` share a key.
pub open spec fn keys_unique(es: Seq<(Seq<char>, Tree)>) -> bool {
    forall|i: int, j: int|
        0 <= i < es.len() && 0 <= j < es.len() && #[trigger] es[i].0 == #[trigger] es[j].0 ==> i
            == j
}

/// The value stored under `k` in a dictionary's entries.
pub open spec fn dict_get(es: Seq<(Seq<char>, Tree)>, k: Seq<char>) -> Option<Tree> {
    if has_key(es, k) {
        Some(es[key_index(es, k)].1)
    } else {
        None
    }
}

/// The value reached from `t` by following the keys of `path`.
pub open spec fn tree_get(t: Tree, path: Seq<Seq<char>>) -> Option<Tree>
    decreases path.len(),
{
    if path.len() == 0 {
        Some(t)
    } else {
        match t {
            Tree::Dict(es) => match dict_get(es, path[0]) {
                Some(child) => tree_get(child, path.drop_first()),
                None => None,
            },
            _ => None,
        }
    }
}

/// The result of putting `leaf` at `path` inside the dictionary `t`, or
/// `None` where the shapes disagree: a key on the way holds something other
/// than a dictionary, or the last key holds a dictionary and `leaf` is none,
/// or the other way round. Missing dictionaries on the way are created.
pub open spec fn tree_insert(t: Tree, path: Seq<Seq<char>>, leaf: Tree) -> Option<Tree>
    decreases path.len(),
{
    if path.len() == 0 {
        None
    } else {
        match t {
            Tree::Dict(es) => {
                let k = path[0];
                if path.len() == 1 {
                    if has_key(es, k) {
                        let i = key_index(es, k);
                        if (es[i].1 is Dict) != (leaf is Dict) {
                            None
                        } else {
                            Some(Tree::Dict(es.update(i, (k, leaf))))
                        }
                    } else {
                        Some(Tree::Dict(es.push((k, leaf))))
                    }
                } else if has_key(es, k) {
                    let i = key_index(es, k);
                    match tree_insert(es[i].1, path.drop_first(), leaf) {
                        Some(c) => Some(Tree::Dict(es.update(i, (k, c)))),
                        None => None,
                    }
                } else {
                    match tree_insert(Tree::Dict(Seq::empty()), path.drop_first(), leaf) {
                        Some(c) => Some(Tree::Dict(es.push((k, c)))),
                        None => None,
                    }
                }
            },
            _ => None,
        }
    }
}

/// Every dictionary in `t` has unique keys.
pub open spec fn tree_wf(t: Tree) -> bool
    decreases t,
{
    match t {
        Tree::Array(vs) => forall|i: int| 0 <= i < vs.len() ==> tree_wf(#[trigger] vs[i]),
        Tree::Dict(es) => keys_unique(es) && forall|i: int|
            0 <= i < es.len() ==> tree_wf(#[trigger] es[i].1),
        _ => true,
    }
}

/// The character sequences of a list of path segments.
pub open spec fn segs(path: Seq<String>) -> Seq<Seq<char>> {
    path.map_values(|s: String| s@)
}

/// The models of a dictionary's entries.
pub open spec fn entries_view(es: Seq<(String, ConfigValue)>) -> Seq<(Seq<char>, Tree)> {
    Seq::new(es.len(), |i: int| (es[i].0@, es[i].1@))
}

/// The model of a dictionary is the sequence of its entries' models.
pub proof fn lemma_dict_view(es: Vec<(String, ConfigValue)>)
    ensures
        ConfigValue::Dict(es)@ == Tree::Dict(entries_view(es@)),
{
    assert(ConfigValue::Dict(es)@->Dict_0 =~= entries_view(es@));
}

/// The model of an array is the sequence of its items' models.
pub proof fn lemma_array_view(vs: Vec<ConfigValue>)
    ensures
        ConfigValue::Array(vs)@ == Tree::Array(vs@.map_values(|v: ConfigValue| v@)),
{
    assert(ConfigValue::Array(vs)@->Array_0 =~= vs@.map_values(|v: ConfigValue| v@));
}

/// Where `i` is a first position of `k`, it is the one `key_index` names.
pub proof fn lemma_key_index(es: Seq<(Seq<char>, Tree)>, k: Seq<char>, i: int)
    requires
        first_key_at(es, k, i),
    ensures
        has_key(es, k),
        key_index(es, k) == i,
{
    let j = key_index(es, k);
    assert(first_key_at(es, k, j));
    if j < i {
        assert(es[j].0 != k);
    } else if i < j {
        assert(es[i].0 != k);
    }
}

/// Position of the first entry with key `k`, if any.
pub(crate) fn find_key(es: &Vec<(String, ConfigValue)>, k: &String) -> (r: Option<usize>)
    ensures
        match r {
            Some(i) => first_key_at(entries_view(es@), k@, i as int),
            None => !has_key(entries_view(es@), k@),
        },
{
    let mut i: usize = 0;
    while i < es.len()
        invariant
            i <= es.len(),
            forall|j: int| 0 <= j < i ==> es@[j].0@ != k@,
        decreases es.len() - i,
    {
        if es[i].0 == *k {
            return Some(i);
        }
        i = i + 1;
    }
    assert(!has_key(entries_view(es@), k@)) by {
        if has_key(entries_view(es@), k@) {
            let j = choose|j: int| 0 <= j < es.len() && #[trigger] entries_view(es@)[j].0 == k@;
            assert(es@[j].0@ == k@);
        }
    }
    None
}

/// The message that reports a shape conflict at key segment `k`.
pub open spec fn conflict_message(k: Seq<char>) -> Seq<char> {
    "key conflict: '"@ + k + "' cannot be both a value and a nested table"@
}

/// The key segment of `path` at which putting `leaf` into `t` runs into a
/// shape conflict (meaningful where `tree_insert` gives `None`): the key
/// whose value is no dictionary though the path goes on below it, or the
/// last key where a dictionary meets a non-dictionary. Empty where the root
/// itself is no dictionary or the path is empty.
pub open spec fn conflict_segment(t: Tree, path: Seq<Seq<char>>, leaf: Tree) -> Seq<char>
    decreases path.len(),
{
    if path.len() == 0 {
        Seq::empty()
    } else {
        match t {
            Tree::Dict(es) => {
                let k = path[0];
                if path.len() == 1 {
                    k
                } else if has_key(es, k) {
                    let c = es[key_index(es, k)].1;
                    if c is Dict {
                        conflict_segment(c, path.drop_first(), leaf)
                    } else {
                        k
                    }
                } else {
                    conflict_segment(Tree::Dict(Seq::empty()), path.drop_first(), leaf)
                }
            },
            _ => Seq::empty(),
        }
    }
}

fn conflict_error(k: &str) -> (e: QuantumConfigError)
    ensures
        e matches QuantumConfigError::Internal(m) && m@ == conflict_message(k@),
{
    let msg = String::from_str("key conflict: '").concat(k).concat(
        "' cannot be both a value and a nested table",
    );
    QuantumConfigError::Internal(msg)
}

/// Where putting `leaf` at `path[start..]` inside `t` runs into a shape
/// conflict: `None` where it does not; `Some(Some(j))` where the conflict
/// is at segment `path[j]`; `Some(None)` where it is at the root.
fn insert_conflict_at(t: &ConfigValue, path: &Vec<String>, start: usize, leaf: &ConfigValue) -> (r:
    Option<Option<usize>>)
    requires
        start <= path.len(),
    ensures
        r is None <==> tree_insert(t@, segs(path@).subrange(start as int, path.len() as int), leaf@)
            is Some,
        r matches Some(Some(j)) ==> start <= j < path.len() && path@[j as int]@ == conflict_segment(
            t@,
            segs(path@).subrange(start as int, path.len() as int),
            leaf@,
        ),
        r matches Some(None) ==> conflict_segment(
            t@,
            segs(path@).subrange(start as int, path.len() as int),
            leaf@,
        ) == Seq::<char>::empty(),
    decreases path.len() - start,
{
    let ghost p = segs(path@).subrange(start as int, path.len() as int);
    if start == path.len() {
        return Some(None);
    }
    match t {
        ConfigValue::Dict(es) => {
            proof {
                lemma_dict_view(*es);
            }
            let k = &path[start];
            assert(p[0] == k@);
            let found = find_key(es, k);
            if start + 1 == path.len() {
                match found {
                    Some(i) => {
                        proof {
                            lemma_key_index(entries_view(es@), k@, i as int);
                        }
                        if is_dict(&es[i].1) != is_dict(leaf) {
                            Some(Some(start))
                        } else {
                            None
                        }
                    },
                    None => None,
                }
            } else {
                assert(p.drop_first() =~= segs(path@).subrange(start + 1, path.len() as int));
                match found {
                    Some(i) => {
                        proof {
                            lemma_key_index(entries_view(es@), k@, i as int);
                        }
                        if is_dict(&es[i].1) {
                            insert_conflict_at(&es[i].1, path, start + 1, leaf)
                        } else {
                            Some(Some(start))
                        }
                    },
                    None => {
                        let empty = ConfigValue::empty_dict();
                        insert_conflict_at(&empty, path, start + 1, leaf)
                    },
                }
            }
        },
        _ => Some(None),
    }
}

/// Whether `v` is a dictionary.
pub fn is_dict(v: &ConfigValue) -> (r: bool)
    ensures
        r == (v@ is Dict),
{
    match v {
        ConfigValue::Dict(_) => true,
        _ => false,
    }
}

/// Puts `leaf` at `path[start..]` inside `t`, where that causes no conflict.
fn insert_from(t: ConfigValue, path: &Vec<String>, start: usize, leaf: ConfigValue) -> (r: ConfigValue)
    requires
        start <= path.len(),
        tree_insert(t@, segs(path@).subrange(start as int, path.len() as int), leaf@) is Some,
    ensures
        tree_insert(t@, segs(path@).subrange(start as int, path.len() as int), leaf@) == Some(r@),
    decreases path.len() - start,
{
    let ghost p = segs(path@).subrange(start as int, path.len() as int);
    let ghost leaf_view = leaf@;
    match t {
        ConfigValue::Dict(mut es) => {
            let ghost old_es = es@;
            proof {
                lemma_dict_view(es);
            }
            let k = &path[start];
            assert(p[0] == k@);
            let found = find_key(&es, k);
            if start + 1 == path.len() {
                match found {
                    Some(i) => {
                        proof {
                            lemma_key_index(entries_view(es@), k@, i as int);
                        }
                        let (key, _old) = es.remove(i);
                        es.insert(i, (key, leaf));
                        proof {
                            lemma_dict_view(es);
                            assert(entries_view(es@) =~= entries_view(old_es).update(
                                i as int,
                                (k@, leaf_view),
                            ));
                        }
                        ConfigValue::Dict(es)
                    },
                    None => {
                        es.push((k.clone(), leaf));
                        proof {
                            lemma_dict_view(es);
                            assert(entries_view(es@) =~= entries_view(old_es).push((k@, leaf_view)));
                        }
                        ConfigValue::Dict(es)
                    },
                }
            } else {
                assert(p.drop_first() =~= segs(path@).subrange(start + 1, path.len() as int));
                match found {
                    Some(i) => {
                        proof {
                            lemma_key_index(entries_view(es@), k@, i as int);
                        }
                        let (key, child) = es.remove(i);
                        let c = insert_from(child, path, start + 1, leaf);
                        let ghost cv = c@;
                        es.insert(i, (key, c));
                        proof {
                            lemma_dict_view(es);
                            assert(entries_view(es@) =~= entries_view(old_es).update(
                                i as int,
                                (k@, cv),
                            ));
                        }
                        ConfigValue::Dict(es)
                    },
                    None => {
                        let empty = ConfigValue::empty_dict();
                        let c = insert_from(empty, path, start + 1, leaf);
                        let ghost cv = c@;
                        es.push((k.clone(), c));
                        proof {
                            lemma_dict_view(es);
                            assert(entries_view(es@) =~= entries_view(old_es).push((k@, cv)));
                        }
                        ConfigValue::Dict(es)
                    },
                }
            }
        },
        _ => t,
    }
}

impl ConfigValue {
    /// An empty dictionary.
    pub fn empty_dict() -> (r: ConfigValue)
        ensures
            r@ == Tree::Dict(Seq::empty()),
    {
        let es: Vec<(String, ConfigValue)> = Vec::new();
        proof {
            lemma_dict_view(es);
            assert(entries_view(es@) =~= Seq::empty());
        }
        ConfigValue::Dict(es)
    }

    /// Puts `leaf` at the nested key `path`, creating the dictionaries on the
    /// way. Fails with `Internal` and leaves the value as it was where a key
    /// on the way holds a non-dictionary, or where the last key holds a
    /// dictionary and `leaf` is not one (or the other way round).
    pub fn insert_path(&mut self, path: &Vec<String>, leaf: ConfigValue) -> (r: Result<
        (),
        QuantumConfigError,
    >)
        ensures
            match r {
                Ok(()) => {
                    &&& tree_insert(old(self)@, segs(path@), leaf@) == Some(final(self)@)
                    &&& tree_wf(old(self)@) && tree_wf(leaf@) ==> tree_wf(final(self)@)
                },
                Err(e) => {
                    &&& tree_insert(old(self)@, segs(path@), leaf@) is None
                    &&& e matches QuantumConfigError::Internal(m) && m@ == conflict_message(
                        conflict_segment(old(self)@, segs(path@), leaf@),
                    )
                    &&& final(self)@ == old(self)@
                },
            },
    {
        assert(segs(path@).subrange(0, path.len() as int) =~= segs(path@));
        match insert_conflict_at(self, path, 0, &leaf) {
            Some(Some(j)) => {
                return Err(conflict_error(path[j].as_str()));
            },
            Some(None) => {
                proof {
                    reveal_strlit("");
                    assert(""@ =~= Seq::<char>::empty());
                }
                return Err(conflict_error(""));
            },
            None => {},
        }
        let mut t = ConfigValue::Bool(false);
        std::mem::swap(self, &mut t);
        let ghost t_view = t@;
        let ghost lv = leaf@;
        *self = insert_from(t, path, 0, leaf);
        proof {
            if tree_wf(t_view) && tree_wf(lv) {
                lemma_insert_wf(t_view, segs(path@), lv);
            }
        }
        Ok(())
    }
}

/// Where some entry has key `k`, `key_index` names the first such entry.
pub proof fn lemma_has_key_first(es: Seq<(Seq<char>, Tree)>, k: Seq<char>)
    requires
        has_key(es, k),
    ensures
        first_key_at(es, k, key_index(es, k)),
    decreases es.len(),
{
    if es[0].0 == k {
        lemma_key_index(es, k, 0);
    } else {
        let rest = es.drop_first();
        let w = choose|i: int| 0 <= i < es.len() && #[trigger] es[i].0 == k;
        assert(rest[w - 1].0 == k);
        lemma_has_key_first(rest, k);
        let j = key_index(rest, k);
        assert(first_key_at(es, k, j + 1)) by {
            assert forall|x: int| 0 <= x < j + 1 implies #[trigger] es[x].0 != k by {
                if x > 0 {
                    assert(es[x] == rest[x - 1]);
                }
            }
        }
        lemma_key_index(es, k, j + 1);
    }
}

/// After a successful insertion, reading the same path gives the leaf.
pub proof fn lemma_insert_then_get(t: Tree, path: Seq<Seq<char>>, leaf: Tree)
    requires
        tree_insert(t, path, leaf) is Some,
    ensures
        tree_get(tree_insert(t, path, leaf)->0, path) == Some(leaf),
    decreases path.len(),
{
    let es = t->Dict_0;
    let k = path[0];
    let new_child = if path.len() == 1 {
        leaf
    } else if has_key(es, k) {
        tree_insert(es[key_index(es, k)].1, path.drop_first(), leaf)->0
    } else {
        tree_insert(Tree::Dict(Seq::empty()), path.drop_first(), leaf)->0
    };
    if path.len() > 1 {
        if has_key(es, k) {
            lemma_insert_then_get(es[key_index(es, k)].1, path.drop_first(), leaf);
        } else {
            lemma_insert_then_get(Tree::Dict(Seq::empty()), path.drop_first(), leaf);
        }
    }
    let es2 = tree_insert(t, path, leaf)->0->Dict_0;
    assert(tree_get(new_child, path.drop_first()) == Some(leaf));
    if has_key(es, k) {
        lemma_has_key_first(es, k);
        let i = key_index(es, k);
        assert(es2 == es.update(i, (k, new_child)));
        assert(first_key_at(es2, k, i));
        lemma_key_index(es2, k, i);
        assert(dict_get(es2, k) == Some(new_child));
    } else {
        assert(es2 == es.push((k, new_child)));
        assert(first_key_at(es2, k, es.len() as int));
        lemma_key_index(es2, k, es.len() as int);
        assert(dict_get(es2, k) == Some(new_child));
    }
}

/// Inserting into an empty dictionary never conflicts.
pub proof fn lemma_insert_fresh(path: Seq<Seq<char>>, leaf: Tree)
    requires
        path.len() > 0,
    ensures
        tree_insert(Tree::Dict(Seq::empty()), path, leaf) is Some,
    decreases path.len(),
{
    assert(!has_key(Seq::<(Seq<char>, Tree)>::empty(), path[0]));
    if path.len() > 1 {
        lemma_insert_fresh(path.drop_first(), leaf);
    }
}

/// Replacing one entry's value, under the same key, keeps keys unique and
/// every value well formed.
pub proof fn lemma_update_wf(es: Seq<(Seq<char>, Tree)>, i: int, v: Tree)
    requires
        0 <= i < es.len(),
        tree_wf(Tree::Dict(es)),
        tree_wf(v),
    ensures
        tree_wf(Tree::Dict(es.update(i, (es[i].0, v)))),
{
    let es2 = es.update(i, (es[i].0, v));
    assert(keys_unique(es2)) by {
        assert forall|a: int, b: int|
            0 <= a < es2.len() && 0 <= b < es2.len() && #[trigger] es2[a].0 == #[trigger] es2[b].0
                implies a == b by {
            assert(es2[a].0 == es[a].0 && es2[b].0 == es[b].0);
        }
    }
    assert forall|a: int| 0 <= a < es2.len() implies tree_wf(#[trigger] es2[a].1) by {
        if a != i {
            assert(es2[a] == es[a]);
        }
    }
}

/// Adding an entry under a new key keeps keys unique and every value well
/// formed.
pub proof fn lemma_push_wf(es: Seq<(Seq<char>, Tree)>, k: Seq<char>, v: Tree)
    requires
        tree_wf(Tree::Dict(es)),
        !has_key(es, k),
        tree_wf(v),
    ensures
        tree_wf(Tree::Dict(es.push((k, v)))),
{
    let es2 = es.push((k, v));
    assert(keys_unique(es2)) by {
        assert forall|a: int, b: int|
            0 <= a < es2.len() && 0 <= b < es2.len() && #[trigger] es2[a].0 == #[trigger] es2[b].0
                implies a == b by {
            if a < es.len() && b < es.len() {
                assert(es2[a] == es[a] && es2[b] == es[b]);
            } else if a < es.len() {
                assert(es2[a] == es[a] && es[a].0 == k);
            } else if b < es.len() {
                assert(es2[b] == es[b] && es[b].0 == k);
            }
        }
    }
    assert forall|a: int| 0 <= a < es2.len() implies tree_wf(#[trigger] es2[a].1) by {
        if a < es.len() {
            assert(es2[a] == es[a]);
        }
    }
}

/// Insertion keeps a well-formed tree well formed: dictionary keys stay
/// unique at every level.
pub proof fn lemma_insert_wf(t: Tree, path: Seq<Seq<char>>, leaf: Tree)
    requires
        tree_wf(t),
        tree_wf(leaf),
        tree_insert(t, path, leaf) is Some,
    ensures
        tree_wf(tree_insert(t, path, leaf)->0),
    decreases path.len(),
{
    let es = t->Dict_0;
    let k = path[0];
    if has_key(es, k) {
        lemma_has_key_first(es, k);
        let i = key_index(es, k);
        if path.len() > 1 {
            assert(tree_wf(es[i].1));
            lemma_insert_wf(es[i].1, path.drop_first(), leaf);
            lemma_update_wf(es, i, tree_insert(es[i].1, path.drop_first(), leaf)->0);
        } else {
            lemma_update_wf(es, i, leaf);
        }
    } else {
        if path.len() > 1 {
            assert(tree_wf(Tree::Dict(Seq::empty())));
            lemma_insert_wf(Tree::Dict(Seq::empty()), path.drop_first(), leaf);
            lemma_push_wf(es, k, tree_insert(Tree::Dict(Seq::empty()), path.drop_first(), leaf)->0);
        } else {
            lemma_push_wf(es, k, leaf);
        }
    }
}

} // verus!
