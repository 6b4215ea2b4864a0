//! The merge engine: folds provider trees in ascending priority.
//!
//! For each key of the incoming tree: where both sides hold dictionaries
//! they merge recursively; where both hold leaves (or arrays) the incoming
//! one replaces the other wholesale; where one side holds a dictionary and
//! the other does not, the merge fails.

use crate::error::QuantumConfigError;
use crate::value::{lemma_push_wf, lemma_update_wf, tree_wf, dict_get, first_key_at, lemma_has_key_first, entries_view, find_key, has_key, is_dict, key_index, lemma_dict_view, lemma_key_index, Tree, ConfigValue};
use vstd::prelude::*;
use vstd::string::*;

verus! {

broadcast use vstd::std_specs::vec::group_vec_axioms;

/// The merge of `inc` over `base`, or `None` on a shape conflict.
pub open spec fn tree_merge(base: Tree, inc: Tree) -> Option<Tree>
    decreases inc,
{
    match inc {
        Tree::Dict(ies) => match base {
            Tree::Dict(bes) => match merge_entries(bes, ies) {
                Some(es) => Some(Tree::Dict(es)),
                None => None,
            },
            _ => None,
        },
        _ => if base is Dict {
            None
        } else {
            Some(inc)
        },
    }
}

/// The entries `bes` with the entries `ies` merged over them, in order.
pub open spec fn merge_entries(bes: Seq<(Seq<char>, Tree)>, ies: Seq<(Seq<char>, Tree)>) -> Option<
    Seq<(Seq<char>, Tree)>,
>
    decreases ies,
{
    if ies.len() == 0 {
        Some(bes)
    } else {
        match merge_entries(bes, ies.drop_last()) {
            None => None,
            Some(acc) => {
                let k = ies.last().0;
                let v = ies.last().1;
                if has_key(acc, k) {
                    let j = key_index(acc, k);
                    let old = acc[j].1;
                    if old is Dict && v is Dict {
                        match tree_merge(old, v) {
                            Some(m) => Some(acc.update(j, (k, m))),
                            None => None,
                        }
                    } else if old is Dict || v is Dict {
                        None
                    } else {
                        Some(acc.update(j, (k, v)))
                    }
                } else {
                    Some(acc.push((k, v)))
                }
            },
        }
    }
}

/// The models of a list of values.
pub open spec fn views(vs: Seq<ConfigValue>) -> Seq<Tree> {
    vs.map_values(|v: ConfigValue| v@)
}

/// The fold of `ts` from an empty dictionary, lowest priority first.
pub open spec fn merge_all_spec(ts: Seq<Tree>) -> Option<Tree>
    decreases ts.len(),
{
    if ts.len() == 0 {
        Some(Tree::Dict(Seq::empty()))
    } else {
        match merge_all_spec(ts.drop_last()) {
            Some(acc) => tree_merge(acc, ts.last()),
            None => None,
        }
    }
}

fn merge_conflict(k: &String) -> (e: QuantumConfigError)
    ensures
        e is Internal,
{
    let msg = String::from_str("key conflict while merging: '").concat(k.as_str()).concat(
        "' is a table in one source and a value in another",
    );
    QuantumConfigError::Internal(msg)
}

/// Merges `inc` over `base`: dictionaries merge key by key, recursively;
/// anything else in `inc` replaces what `base` holds; a dictionary meeting
/// a non-dictionary is a conflict.
pub fn merge_values(base: ConfigValue, inc: ConfigValue) -> (r: Result<ConfigValue, QuantumConfigError>)
    ensures
        match r {
            Ok(v) => tree_merge(base@, inc@) == Some(v@),
            Err(e) => tree_merge(base@, inc@) is None && e is Internal,
        },
        tree_wf(base@) && tree_wf(inc@) ==> (r matches Ok(v) ==> tree_wf(v@)),
    decreases inc@,
{
    let ghost bv = base@;
    let ghost iv = inc@;
    match inc {
        ConfigValue::Dict(mut ies) => {
            proof {
                lemma_dict_view(ies);
            }
            match base {
                ConfigValue::Dict(mut acc) => {
                    proof {
                        lemma_dict_view(acc);
                    }
                    let ghost bes = entries_view(acc@);
                    let ghost orig = ies@;
                    let ghost iev = entries_view(orig);
                    let n = ies.len();
                    let mut j: usize = 0;
                    while j < n
                        invariant
                            j <= n == orig.len(),
                            iev == entries_view(orig),
                            iv == Tree::Dict(iev),
                            iv == inc@,
                            bv == base@,
                            bv == Tree::Dict(bes),
                            ies@ == orig.subrange(j as int, n as int),
                            merge_entries(bes, iev.subrange(0, j as int)) == Some(
                                entries_view(acc@),
                            ),
                        decreases n - j,
                    {
                        let ghost accv = entries_view(acc@);
                        let (k, v) = ies.remove(0);
                        assert(orig[j as int] == (k, v));
                        assert(iev.subrange(0, j + 1).drop_last() =~= iev.subrange(0, j as int));
                        assert(iev.subrange(0, j + 1).last() == (k@, v@));
                        assert(iev[j as int].1 == v@);
                        proof {
                            assert(decreases_to!(iv => iv->Dict_0));
                            assert(decreases_to!(iev => iev[j as int]));
                            assert(decreases_to!(iev[j as int] => iev[j as int].1));
                            assert(decreases_to!(iv => iev[j as int].1));
                        }
                        let found = find_key(&acc, &k);
                        match found {
                            Some(i) => {
                                proof {
                                    lemma_key_index(accv, k@, i as int);
                                }
                                let (key, old) = acc.remove(i);
                                let od = is_dict(&old);
                                let vd = is_dict(&v);
                                if od && vd {
                                    match merge_values(old, v) {
                                        Ok(m) => {
                                            let ghost mv = m@;
                                            acc.insert(i, (key, m));
                                            assert(entries_view(acc@) =~= accv.update(
                                                i as int,
                                                (k@, mv),
                                            ));
                                        },
                                        Err(e) => {
                                            proof {
                                                lemma_merge_entries_stays_none(bes, iev, j + 1);
                                            }
                                            return Err(e);
                                        },
                                    }
                                } else if od || vd {
                                    proof {
                                        lemma_merge_entries_stays_none(bes, iev, j + 1);
                                    }
                                    return Err(merge_conflict(&k));
                                } else {
                                    let ghost vv = v@;
                                    acc.insert(i, (key, v));
                                    assert(entries_view(acc@) =~= accv.update(i as int, (k@, vv)));
                                }
                            },
                            None => {
                                let ghost vv = v@;
                                acc.push((k, v));
                                assert(entries_view(acc@) =~= accv.push((k@, vv)));
                            },
                        }
                        j = j + 1;
                        assert(ies@ =~= orig.subrange(j as int, n as int));
                    }
                    assert(iev.subrange(0, n as int) =~= iev);
                    proof {
                        lemma_dict_view(acc);
                        if tree_wf(bv) && tree_wf(iv) {
                            lemma_merge_wf(bv, iv);
                        }
                    }
                    Ok(ConfigValue::Dict(acc))
                },
                _ => {
                    let k = String::from_str("<root>");
                    Err(merge_conflict(&k))
                },
            }
        },
        _ => {
            if is_dict(&base) {
                let k = String::from_str("<root>");
                Err(merge_conflict(&k))
            } else {
                Ok(inc)
            }
        },
    }
}

/// Once a prefix of the incoming entries conflicts, so do all of them.
proof fn lemma_merge_entries_stays_none(
    bes: Seq<(Seq<char>, Tree)>,
    ies: Seq<(Seq<char>, Tree)>,
    j: int,
)
    requires
        0 <= j <= ies.len(),
        merge_entries(bes, ies.subrange(0, j)) is None,
    ensures
        merge_entries(bes, ies) is None,
    decreases ies.len() - j,
{
    if j < ies.len() {
        assert(ies.subrange(0, j + 1).drop_last() =~= ies.subrange(0, j));
        lemma_merge_entries_stays_none(bes, ies, j + 1);
    } else {
        assert(ies.subrange(0, j) =~= ies);
    }
}

/// Once a prefix of the trees conflicts, so do all the trees.
proof fn lemma_merge_all_stays_none(ts: Seq<Tree>, j: int)
    requires
        0 <= j <= ts.len(),
        merge_all_spec(ts.subrange(0, j)) is None,
    ensures
        merge_all_spec(ts) is None,
    decreases ts.len() - j,
{
    if j < ts.len() {
        assert(ts.subrange(0, j + 1).drop_last() =~= ts.subrange(0, j));
        lemma_merge_all_stays_none(ts, j + 1);
    } else {
        assert(ts.subrange(0, j) =~= ts);
    }
}

/// Folds the provider trees `trees` into one, lowest priority first,
/// starting from an empty dictionary. Any conflict aborts the whole merge.
pub fn merge_all(trees: Vec<ConfigValue>) -> (r: Result<ConfigValue, QuantumConfigError>)
    ensures
        match r {
            Ok(v) => merge_all_spec(views(trees@)) == Some(v@),
            Err(e) => merge_all_spec(views(trees@)) is None && e is Internal,
        },
        (forall|i: int| 0 <= i < trees@.len() ==> tree_wf(#[trigger] trees@[i]@)) ==> (r matches Ok(
            v,
        ) ==> tree_wf(v@)),
{
    let ghost all_wf = forall|i: int| 0 <= i < trees@.len() ==> tree_wf(#[trigger] trees@[i]@);
    let ghost ts = views(trees@);
    let mut rest = trees;
    let mut acc = ConfigValue::empty_dict();
    let n = rest.len();
    let mut j: usize = 0;
    assert(ts.subrange(0, 0) =~= Seq::<Tree>::empty());
    while j < n
        invariant
            j <= n == ts.len(),
            ts == views(trees@),
            rest@.len() == n - j,
            forall|i: int| 0 <= i < n - j ==> #[trigger] rest@[i]@ == ts[i + j],
            merge_all_spec(ts.subrange(0, j as int)) == Some(acc@),
            all_wf ==> tree_wf(acc@),
            all_wf ==> forall|i: int| 0 <= i < n - j ==> tree_wf(#[trigger] rest@[i]@),
        decreases n - j,
    {
        assert(rest@[0]@ == ts[j as int]);
        let ghost before = rest@;
        let t = rest.remove(0);
        assert(forall|i: int| 0 <= i < rest@.len() ==> rest@[i] == before[i + 1]);
        let ghost accv = acc@;
        assert(ts.subrange(0, j + 1).drop_last() =~= ts.subrange(0, j as int));
        assert(ts.subrange(0, j + 1).last() == t@);
        assert(merge_all_spec(ts.subrange(0, j + 1)) == tree_merge(accv, t@));
        match merge_values(acc, t) {
            Ok(m) => {
                acc = m;
            },
            Err(e) => {
                proof {
                    lemma_merge_all_stays_none(ts, j + 1);
                }
                return Err(e);
            },
        }
        j = j + 1;
    }
    assert(ts.subrange(0, n as int) =~= ts);
    Ok(acc)
}

/// Later wins: merging `{k: v}`, with `v` no dictionary, over a dictionary
/// where `k` is absent or holds no dictionary puts `v` at `k`.
pub proof fn law_merge_later_leaf_wins(bes: Seq<(Seq<char>, Tree)>, k: Seq<char>, v: Tree)
    requires
        !(v is Dict),
        has_key(bes, k) ==> !(bes[key_index(bes, k)].1 is Dict),
    ensures
        tree_merge(Tree::Dict(bes), Tree::Dict(seq![(k, v)])) matches Some(t) && t is Dict
            && dict_get(t->Dict_0, k) == Some(v),
{
    let ies = seq![(k, v)];
    assert(ies.drop_last() =~= Seq::<(Seq<char>, Tree)>::empty());
    assert(merge_entries(bes, ies.drop_last()) == Some(bes));
    assert(ies.last() == (k, v));
    let es2 = merge_entries(bes, ies)->0;
    if has_key(bes, k) {
        lemma_has_key_first(bes, k);
        let i = key_index(bes, k);
        assert(es2 == bes.update(i, (k, v)));
        assert(first_key_at(es2, k, i));
        lemma_key_index(es2, k, i);
    } else {
        assert(es2 == bes.push((k, v)));
        assert(first_key_at(es2, k, bes.len() as int));
        lemma_key_index(es2, k, bes.len() as int);
    }
}

/// Dictionaries merge recursively: merging `{k: y}` over a dictionary whose
/// `k` holds `x`, both dictionaries, puts the merge of `y` over `x` at `k`.
pub proof fn law_merge_dicts_recursively(bes: Seq<(Seq<char>, Tree)>, k: Seq<char>, y: Tree)
    requires
        has_key(bes, k),
        bes[key_index(bes, k)].1 is Dict,
        y is Dict,
        tree_merge(bes[key_index(bes, k)].1, y) is Some,
    ensures
        tree_merge(Tree::Dict(bes), Tree::Dict(seq![(k, y)])) matches Some(t) && t is Dict
            && dict_get(t->Dict_0, k) == tree_merge(bes[key_index(bes, k)].1, y),
{
    let ies = seq![(k, y)];
    assert(ies.drop_last() =~= Seq::<(Seq<char>, Tree)>::empty());
    assert(merge_entries(bes, ies.drop_last()) == Some(bes));
    assert(ies.last() == (k, y));
    lemma_has_key_first(bes, k);
    let i = key_index(bes, k);
    let m = tree_merge(bes[i].1, y)->0;
    let es2 = merge_entries(bes, ies)->0;
    assert(es2 == bes.update(i, (k, m)));
    assert(first_key_at(es2, k, i));
    lemma_key_index(es2, k, i);
}

/// A dictionary meeting a non-dictionary under the same key is a conflict.
pub proof fn law_merge_shape_conflict(bes: Seq<(Seq<char>, Tree)>, k: Seq<char>, v: Tree)
    requires
        has_key(bes, k),
        (bes[key_index(bes, k)].1 is Dict) != (v is Dict),
    ensures
        tree_merge(Tree::Dict(bes), Tree::Dict(seq![(k, v)])) is None,
{
    let ies = seq![(k, v)];
    assert(ies.drop_last() =~= Seq::<(Seq<char>, Tree)>::empty());
    assert(merge_entries(bes, ies.drop_last()) == Some(bes));
    assert(ies.last() == (k, v));
}

/// Merging two well-formed trees gives a well-formed tree: dictionary keys
/// stay unique at every level.
pub proof fn lemma_merge_wf(base: Tree, inc: Tree)
    requires
        tree_wf(base),
        tree_wf(inc),
        tree_merge(base, inc) is Some,
    ensures
        tree_wf(tree_merge(base, inc)->0),
    decreases inc,
{
    if let Tree::Dict(ies) = inc {
        assert(decreases_to!(inc => inc->Dict_0));
        lemma_merge_entries_wf(base->Dict_0, ies);
    }
}

proof fn lemma_merge_entries_wf(bes: Seq<(Seq<char>, Tree)>, ies: Seq<(Seq<char>, Tree)>)
    requires
        tree_wf(Tree::Dict(bes)),
        tree_wf(Tree::Dict(ies)),
        merge_entries(bes, ies) is Some,
    ensures
        tree_wf(Tree::Dict(merge_entries(bes, ies)->0)),
    decreases ies,
{
    if ies.len() > 0 {
        let prefix = ies.drop_last();
        assert(tree_wf(Tree::Dict(prefix))) by {
            assert forall|a: int, b: int|
                0 <= a < prefix.len() && 0 <= b < prefix.len() && #[trigger] prefix[a].0
                    == #[trigger] prefix[b].0 implies a == b by {
                assert(prefix[a] == ies[a] && prefix[b] == ies[b]);
            }
            assert forall|a: int| 0 <= a < prefix.len() implies tree_wf(#[trigger] prefix[a].1) by {
                assert(prefix[a] == ies[a]);
            }
        }
        assert(decreases_to!(ies => prefix));
        lemma_merge_entries_wf(bes, prefix);
        let acc = merge_entries(bes, prefix)->0;
        let last = ies.len() - 1;
        let k = ies[last].0;
        let v = ies[last].1;
        assert(tree_wf(v));
        if has_key(acc, k) {
            lemma_has_key_first(acc, k);
            let j = key_index(acc, k);
            let old = acc[j].1;
            assert(tree_wf(old));
            if old is Dict && v is Dict {
                assert(decreases_to!(ies => ies[last]));
                assert(decreases_to!(ies[last] => ies[last].1));
                lemma_merge_wf(old, v);
                lemma_update_wf(acc, j, tree_merge(old, v)->0);
            } else {
                lemma_update_wf(acc, j, v);
            }
        } else {
            lemma_push_wf(acc, k, v);
        }
    }
}

/// The model of an optional value.
pub open spec fn opt_view(o: Option<ConfigValue>) -> Option<Tree> {
    match o {
        Some(v) => Some(v@),
        None => None,
    }
}

/// The provider trees in ascending priority: the files (auto-discovered
/// ones first, then the one the operator named), then the environment, then
/// the command line where it was read.
pub open spec fn precedence_order(files: Seq<Tree>, env: Tree, cli: Option<Tree>) -> Seq<Tree> {
    match cli {
        Some(c) => files.push(env).push(c),
        None => files.push(env),
    }
}

/// Merges the provider trees in their fixed precedence (see
/// `precedence_order`): each later source overrides the earlier ones, and
/// any conflict aborts the whole merge.
pub fn aggregate(files: Vec<ConfigValue>, env: ConfigValue, cli: Option<ConfigValue>) -> (r: Result<
    ConfigValue,
    QuantumConfigError,
>)
    ensures
        match r {
            Ok(v) => merge_all_spec(
                precedence_order(
                    views(files@),
                    env@,
                    opt_view(cli),
                ),
            ) == Some(v@),
            Err(e) => merge_all_spec(
                precedence_order(
                    views(files@),
                    env@,
                    opt_view(cli),
                ),
            ) is None && e is Internal,
        },
{
    let ghost order = precedence_order(views(files@), env@, opt_view(cli));
    let mut trees = files;
    trees.push(env);
    match cli {
        Some(c) => trees.push(c),
        None => {},
    }
    assert(views(trees@) =~= order);
    merge_all(trees)
}

} // verus!
