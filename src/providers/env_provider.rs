//! The environment provider: turns a snapshot of environment variables into
//! a configuration tree.
//!
//! Only variables whose name starts with the configured prefix are kept. The
//! rest of the name is optionally lower-cased, split on the separator into a
//! nested key, and the coerced value is put there.

use crate::coerce::{chars_of, coerce, coerced};
use crate::error::QuantumConfigError;
use crate::keys::{has_prefix, split_on, split_spec, starts_with};
use crate::value::{conflict_message, conflict_segment, lemma_insert_fresh, lemma_insert_then_get, tree_get, tree_insert, tree_wf, ConfigValue, Tree};
use vstd::prelude::*;
use vstd::string::*;

verus! {

/// What `str::to_lowercase` makes of the characters `s`.
pub uninterp spec fn lower_of(s: Seq<char>) -> Seq<char>;

/// Relies on `str::to_lowercase`: full Unicode lower case, which depends on
/// the characters alone.
#[verifier::external_body]
fn to_lower(s: &str) -> (r: String)
    ensures
        r@ == lower_of(s@),
{
    s.to_lowercase()
}

/// Longest accepted variable name, in UTF-8 bytes.
pub const MAX_KEY_BYTES: usize = 256;

/// Longest accepted variable value, in UTF-8 bytes.
pub const MAX_VALUE_BYTES: usize = 8192;

/// Bytes that the UTF-8 encoding of `c` takes.
pub open spec fn utf8_width(c: char) -> nat {
    if (c as u32) < 0x80 {
        1
    } else if (c as u32) < 0x800 {
        2
    } else if (c as u32) < 0x10000 {
        3
    } else {
        4
    }
}

/// Bytes that the UTF-8 encoding of `s` takes.
pub open spec fn utf8_len(s: Seq<char>) -> nat
    decreases s.len(),
{
    if s.len() == 0 {
        0
    } else {
        utf8_len(s.drop_last()) + utf8_width(s.last())
    }
}

/// Whether the UTF-8 encoding of `s` takes more than `max` bytes.
fn utf8_longer_than(s: &str, max: usize) -> (r: bool)
    ensures
        r == (utf8_len(s@) > max),
{
    let cs = chars_of(s);
    let mut total: usize = 0;
    let mut i: usize = 0;
    while i < cs.len()
        invariant
            cs@ == s@,
            i <= cs.len(),
            total == utf8_len(cs@.subrange(0, i as int)),
            total <= max,
        decreases cs.len() - i,
    {
        let c = cs[i];
        let w: usize = if (c as u32) < 0x80 {
            1
        } else if (c as u32) < 0x800 {
            2
        } else if (c as u32) < 0x10000 {
            3
        } else {
            4
        };
        assert(cs@.subrange(0, i + 1).drop_last() =~= cs@.subrange(0, i as int));
        if w > max - total {
            proof {
                lemma_utf8_len_prefix(cs@, i + 1);
            }
            return true;
        }
        total = total + w;
        i = i + 1;
    }
    assert(cs@.subrange(0, cs.len() as int) =~= cs@);
    false
}

/// A prefix takes no more bytes than the whole.
proof fn lemma_utf8_len_prefix(s: Seq<char>, j: int)
    requires
        0 <= j <= s.len(),
    ensures
        utf8_len(s.subrange(0, j)) <= utf8_len(s),
    decreases s.len() - j,
{
    if j < s.len() {
        lemma_utf8_len_prefix(s, j + 1);
        assert(s.subrange(0, j + 1).drop_last() =~= s.subrange(0, j));
    } else {
        assert(s.subrange(0, j) =~= s);
    }
}

/// A variable name that is short enough and holds no NUL, CR or LF.
pub open spec fn key_valid(k: Seq<char>) -> bool {
    &&& utf8_len(k) <= MAX_KEY_BYTES
    &&& !k.contains('\0')
    &&& !k.contains('\n')
    &&& !k.contains('\r')
}

/// A variable value that is short enough and holds no NUL.
pub open spec fn value_valid(v: Seq<char>) -> bool {
    utf8_len(v) <= MAX_VALUE_BYTES && !v.contains('\0')
}

/// Why reading the environment failed.
pub enum EnvFailure {
    /// A kept variable has an unsafe or oversized name or value.
    Invalid,
    /// Two variables disagree on the shape of a key.
    Conflict,
}

/// The models of a list of name/value pairs.
pub open spec fn pairs_view(vars: Seq<(String, String)>) -> Seq<(Seq<char>, Seq<char>)> {
    vars.map_values(|p: (String, String)| (p.0@, p.1@))
}

fn contains_char(s: &str, c: char) -> (r: bool)
    ensures
        r == s@.contains(c),
{
    let cs = chars_of(s);
    let mut i: usize = 0;
    while i < cs.len()
        invariant
            cs@ == s@,
            i <= cs.len(),
            forall|j: int| 0 <= j < i ==> cs@[j] != c,
        decreases cs.len() - i,
    {
        if cs[i] == c {
            return true;
        }
        i = i + 1;
    }
    false
}

/// Reads environment variables into a configuration tree.
#[derive(Debug, Clone)]
pub struct QuantumConfigEnvProvider {
    /// Only variables whose name starts with this are read.
    pub prefix: String,
    /// Splits the rest of a name into nested keys.
    pub separator: String,
    /// Skip variables whose value is empty.
    pub ignore_empty: bool,
    /// Lower-case the rest of a name before splitting it.
    pub lowercase_keys: bool,
}

impl QuantumConfigEnvProvider {
    pub fn new(prefix: &str, separator: &str, ignore_empty: bool, lowercase_keys: bool) -> (r: Self)
        ensures
            r.prefix@ == prefix@,
            r.separator@ == separator@,
            r.ignore_empty == ignore_empty,
            r.lowercase_keys == lowercase_keys,
    {
        QuantumConfigEnvProvider {
            prefix: String::from_str(prefix),
            separator: String::from_str(separator),
            ignore_empty,
            lowercase_keys,
        }
    }

    /// A provider with separator `__` that skips empty values and
    /// lower-cases names.
    pub fn with_prefix(prefix: &str) -> (r: Self)
        ensures
            r.prefix@ == prefix@,
            r.separator@ == "__"@,
            r.ignore_empty,
            r.lowercase_keys,
    {
        QuantumConfigEnvProvider {
            prefix: String::from_str(prefix),
            separator: String::from_str("__"),
            ignore_empty: true,
            lowercase_keys: true,
        }
    }

    /// Accepts a variable name of at most 256 bytes without NUL, CR or LF.
    pub fn validate_env_key(key: &str) -> (r: Result<(), QuantumConfigError>)
        ensures
            r is Ok <==> key_valid(key@),
            r matches Err(e) ==> e is ValidationError,
    {
        if utf8_longer_than(key, MAX_KEY_BYTES) {
            return Err(
                QuantumConfigError::ValidationError(
                    String::from_str("Environment variable key too long (max 256 bytes)"),
                ),
            );
        }
        if contains_char(key, '\0') || contains_char(key, '\n') || contains_char(key, '\r') {
            return Err(
                QuantumConfigError::ValidationError(
                    String::from_str("Environment variable key contains invalid characters"),
                ),
            );
        }
        Ok(())
    }

    /// Accepts a variable value of at most 8192 bytes without NUL.
    pub fn validate_env_value(value: &str) -> (r: Result<(), QuantumConfigError>)
        ensures
            r is Ok <==> value_valid(value@),
            r matches Err(e) ==> e is ValidationError,
    {
        if utf8_longer_than(value, MAX_VALUE_BYTES) {
            return Err(
                QuantumConfigError::ValidationError(
                    String::from_str("Environment variable value too long (max 8192 bytes)"),
                ),
            );
        }
        if contains_char(value, '\0') {
            return Err(
                QuantumConfigError::ValidationError(
                    String::from_str("Environment variable value contains null bytes"),
                ),
            );
        }
        Ok(())
    }

    /// The nested key of the kept variable named `k`.
    pub open spec fn entry_path(&self, k: Seq<char>) -> Seq<Seq<char>> {
        let name = k.subrange(self.prefix@.len() as int, k.len() as int);
        split_spec(
            if self.lowercase_keys {
                lower_of(name)
            } else {
                name
            },
            self.separator@,
        )
    }

    /// A variable that is kept has a valid name and value; the others are
    /// not looked at.
    pub open spec fn kept_valid(&self, k: Seq<char>, v: Seq<char>) -> bool {
        has_prefix(k, self.prefix@) ==> key_valid(k) && value_valid(v)
    }

    /// Every kept variable of `vars` has a valid name and value.
    pub open spec fn all_valid(&self, vars: Seq<(Seq<char>, Seq<char>)>) -> bool
        decreases vars.len(),
    {
        vars.len() == 0 || (self.all_valid(vars.drop_last()) && self.kept_valid(
            vars.last().0,
            vars.last().1,
        ))
    }

    /// The tree `acc` after putting in the variable `k = v`, or `None` on a
    /// shape conflict.
    pub open spec fn insert_step(&self, acc: Tree, k: Seq<char>, v: Seq<char>) -> Option<Tree> {
        if !has_prefix(k, self.prefix@) || (self.ignore_empty && v.len() == 0) {
            Some(acc)
        } else {
            tree_insert(acc, self.entry_path(k), coerced(v))
        }
    }

    /// The tree that the variables `vars` build, in order, from an empty one.
    pub open spec fn insert_spec(&self, vars: Seq<(Seq<char>, Seq<char>)>) -> Option<Tree>
        decreases vars.len(),
    {
        if vars.len() == 0 {
            Some(Tree::Dict(Seq::empty()))
        } else {
            match self.insert_spec(vars.drop_last()) {
                Some(acc) => self.insert_step(acc, vars.last().0, vars.last().1),
                None => None,
            }
        }
    }

    /// The message of the first shape conflict among `vars` (meaningful
    /// where `insert_spec` gives `None`): it names the clashing segment.
    pub open spec fn conflict_spec(&self, vars: Seq<(Seq<char>, Seq<char>)>) -> Seq<char>
        decreases vars.len(),
    {
        if vars.len() == 0 {
            Seq::empty()
        } else {
            match self.insert_spec(vars.drop_last()) {
                Some(acc) => conflict_message(
                    conflict_segment(acc, self.entry_path(vars.last().0), coerced(vars.last().1)),
                ),
                None => self.conflict_spec(vars.drop_last()),
            }
        }
    }

    /// The kept variables of `vars`, in order.
    pub open spec fn kept_only(&self, vars: Seq<(Seq<char>, Seq<char>)>) -> Seq<(Seq<char>, Seq<char>)>
        decreases vars.len(),
    {
        if vars.len() == 0 {
            Seq::empty()
        } else {
            let r = self.kept_only(vars.drop_last());
            if has_prefix(vars.last().0, self.prefix@) {
                r.push(vars.last())
            } else {
                r
            }
        }
    }

    /// What reading `vars` gives: every kept variable is validated before
    /// any is put in, so an invalid one fails the read whatever else holds.
    pub open spec fn read_spec(&self, vars: Seq<(Seq<char>, Seq<char>)>) -> Result<Tree, EnvFailure> {
        if !self.all_valid(vars) {
            Err(EnvFailure::Invalid)
        } else {
            match self.insert_spec(vars) {
                Some(t) => Ok(t),
                None => Err(EnvFailure::Conflict),
            }
        }
    }

    /// Coerces the value of a variable into a typed leaf.
    pub fn parse_env_value(&self, value: &str) -> (r: Result<ConfigValue, QuantumConfigError>)
        ensures
            r matches Ok(v) && v@ == coerced(value@),
    {
        Ok(coerce(value))
    }

    /// Puts the coerced `value` at the nested key that `key` names (split on
    /// the separator) inside `map`.
    pub fn insert_nested_value(&self, map: &mut ConfigValue, key: &str, value: &str) -> (r: Result<
        (),
        QuantumConfigError,
    >)
        ensures
            match r {
                Ok(()) => {
                    &&& tree_insert(old(map)@, split_spec(key@, self.separator@), coerced(value@))
                        == Some(final(map)@)
                    &&& tree_wf(old(map)@) ==> tree_wf(final(map)@)
                },
                Err(e) => {
                    &&& tree_insert(old(map)@, split_spec(key@, self.separator@), coerced(value@))
                        is None
                    &&& e matches QuantumConfigError::Internal(m) && m@ == conflict_message(
                        conflict_segment(old(map)@, split_spec(key@, self.separator@), coerced(value@)),
                    )
                    &&& final(map)@ == old(map)@
                },
            },
    {
        let parts = split_on(key, self.separator.as_str());
        let leaf = coerce(value);
        proof {
            assert(crate::value::segs(parts@) =~= parts@.map_values(|x: String| x@));
            assert(tree_wf(leaf@));
        }
        map.insert_path(&parts, leaf)
    }

    /// Reads a snapshot of the environment, given as name/value pairs in
    /// the order they were listed, into a tree. Every kept variable is
    /// validated first: an invalid name or value fails the whole read with
    /// `ValidationError`. A shape conflict fails it with a message naming
    /// the clashing key segment.
    pub fn read_env_vars(&self, vars: &Vec<(String, String)>) -> (r: Result<ConfigValue, QuantumConfigError>)
        ensures
            match r {
                Ok(t) => self.read_spec(pairs_view(vars@)) == Ok::<Tree, EnvFailure>(t@) && tree_wf(t@),
                Err(e) => {
                    ||| self.read_spec(pairs_view(vars@)) == Err::<Tree, EnvFailure>(
                        EnvFailure::Invalid,
                    ) && e is ValidationError
                    ||| self.read_spec(pairs_view(vars@)) == Err::<Tree, EnvFailure>(
                        EnvFailure::Conflict,
                    ) && (e matches QuantumConfigError::Internal(m) && m@ == self.conflict_spec(
                        pairs_view(vars@),
                    ))
                },
            },
    {
        let ghost pv = pairs_view(vars@);
        let mut i: usize = 0;
        assert(pv.subrange(0, 0) =~= Seq::<(Seq<char>, Seq<char>)>::empty());
        while i < vars.len()
            invariant
                pv == pairs_view(vars@),
                i <= vars.len(),
                self.all_valid(pv.subrange(0, i as int)),
            decreases vars.len() - i,
        {
            let key = vars[i].0.as_str();
            let value = vars[i].1.as_str();
            assert(pv.subrange(0, i + 1).drop_last() =~= pv.subrange(0, i as int));
            assert(pv.subrange(0, i + 1).last() == (key@, value@));
            if starts_with(key, self.prefix.as_str()) {
                let checked = match Self::validate_env_key(key) {
                    Ok(()) => Self::validate_env_value(value),
                    Err(e) => Err(e),
                };
                match checked {
                    Ok(()) => {},
                    Err(e) => {
                        proof {
                            lemma_valid_stays_failed(self, pv, i + 1);
                        }
                        return Err(e);
                    },
                }
            }
            i = i + 1;
        }
        assert(pv.subrange(0, vars.len() as int) =~= pv);
        let mut tree = ConfigValue::empty_dict();
        let mut i: usize = 0;
        while i < vars.len()
            invariant
                pv == pairs_view(vars@),
                self.all_valid(pv),
                i <= vars.len(),
                self.insert_spec(pv.subrange(0, i as int)) == Some(tree@),
                tree_wf(tree@),
            decreases vars.len() - i,
        {
            let key = vars[i].0.as_str();
            let value = vars[i].1.as_str();
            assert(pv.subrange(0, i + 1).drop_last() =~= pv.subrange(0, i as int));
            assert(pv.subrange(0, i + 1).last() == (key@, value@));
            if starts_with(key, self.prefix.as_str()) && !(self.ignore_empty && value.is_empty()) {
                let plen = self.prefix.as_str().unicode_len();
                let rest = key.substring_char(plen, key.unicode_len());
                let name = if self.lowercase_keys {
                    to_lower(rest)
                } else {
                    String::from_str(rest)
                };
                assert(split_spec(name@, self.separator@) == self.entry_path(key@));
                match self.insert_nested_value(&mut tree, name.as_str(), value) {
                    Ok(()) => {},
                    Err(e) => {
                        proof {
                            lemma_insert_stays_failed(self, pv, i + 1);
                        }
                        return Err(e);
                    },
                }
            }
            i = i + 1;
        }
        Ok(tree)
    }
}

/// Once a prefix of the variables holds an invalid kept one, so do all.
proof fn lemma_valid_stays_failed(
    p: &QuantumConfigEnvProvider,
    vars: Seq<(Seq<char>, Seq<char>)>,
    j: int,
)
    requires
        0 <= j <= vars.len(),
        !p.all_valid(vars.subrange(0, j)),
    ensures
        !p.all_valid(vars),
    decreases vars.len() - j,
{
    if j < vars.len() {
        assert(vars.subrange(0, j + 1).drop_last() =~= vars.subrange(0, j));
        lemma_valid_stays_failed(p, vars, j + 1);
    } else {
        assert(vars.subrange(0, j) =~= vars);
    }
}

/// Once a prefix of the variables clashes, the whole read clashes, with the
/// same message.
proof fn lemma_insert_stays_failed(
    p: &QuantumConfigEnvProvider,
    vars: Seq<(Seq<char>, Seq<char>)>,
    j: int,
)
    requires
        0 <= j <= vars.len(),
        p.insert_spec(vars.subrange(0, j)) is None,
    ensures
        p.insert_spec(vars) is None,
        p.conflict_spec(vars) == p.conflict_spec(vars.subrange(0, j)),
    decreases vars.len() - j,
{
    if j < vars.len() {
        assert(vars.subrange(0, j + 1).drop_last() =~= vars.subrange(0, j));
        lemma_insert_stays_failed(p, vars, j + 1);
    } else {
        assert(vars.subrange(0, j) =~= vars);
    }
}

/// A single kept variable `prefix + name = v`, read into an empty tree,
/// lands at the nested key that its name gives and holds the coerced `v`.
pub proof fn law_env_variable_lands_at_its_path(
    p: QuantumConfigEnvProvider,
    k: Seq<char>,
    v: Seq<char>,
)
    requires
        has_prefix(k, p.prefix@),
        key_valid(k),
        value_valid(v),
        !(p.ignore_empty && v.len() == 0),
    ensures
        p.read_spec(seq![(k, v)]) matches Ok(t) && tree_get(t, p.entry_path(k)) == Some(coerced(v)),
{
    let vars = seq![(k, v)];
    assert(vars.drop_last() =~= Seq::<(Seq<char>, Seq<char>)>::empty());
    assert(p.all_valid(vars.drop_last()));
    assert(vars.last() == (k, v));
    assert(p.all_valid(vars));
    assert(p.insert_spec(vars.drop_last()) == Some(Tree::Dict(Seq::empty())));
    assert(vars.last() == (k, v));
    let path = p.entry_path(k);
    let name = k.subrange(p.prefix@.len() as int, k.len() as int);
    let text = if p.lowercase_keys {
        lower_of(name)
    } else {
        name
    };
    assert(split_spec(text, p.separator@).len() > 0);
    lemma_insert_fresh(path, coerced(v));
    lemma_insert_then_get(Tree::Dict(Seq::empty()), path, coerced(v));
}

/// A variable whose name does not start with the prefix changes nothing.
pub proof fn law_env_other_prefix_ignored(
    p: QuantumConfigEnvProvider,
    vars: Seq<(Seq<char>, Seq<char>)>,
    k: Seq<char>,
    v: Seq<char>,
)
    requires
        !has_prefix(k, p.prefix@),
    ensures
        p.read_spec(vars.push((k, v))) == p.read_spec(vars),
{
    assert(vars.push((k, v)).drop_last() =~= vars);
    assert(p.all_valid(vars.push((k, v))) == p.all_valid(vars));
}

/// Dropping the variables that are not kept changes neither validity nor
/// the tree built.
proof fn lemma_kept_only(p: QuantumConfigEnvProvider, vars: Seq<(Seq<char>, Seq<char>)>)
    ensures
        p.all_valid(vars) == p.all_valid(p.kept_only(vars)),
        p.insert_spec(vars) == p.insert_spec(p.kept_only(vars)),
    decreases vars.len(),
{
    if vars.len() > 0 {
        lemma_kept_only(p, vars.drop_last());
        let r = p.kept_only(vars.drop_last());
        if has_prefix(vars.last().0, p.prefix@) {
            let q = r.push(vars.last());
            assert(q.drop_last() =~= r);
            assert(q.last() == vars.last());
        }
    }
}

/// Variables whose names lack the prefix are excluded entirely: two
/// snapshots with the same kept variables, in the same order, read the
/// same, whatever other variables they hold.
pub proof fn law_env_reads_only_kept_variables(
    p: QuantumConfigEnvProvider,
    a: Seq<(Seq<char>, Seq<char>)>,
    b: Seq<(Seq<char>, Seq<char>)>,
)
    requires
        p.kept_only(a) == p.kept_only(b),
    ensures
        p.read_spec(a) == p.read_spec(b),
{
    lemma_kept_only(p, a);
    lemma_kept_only(p, b);
}

/// A snapshot whose only kept variable is `prefix + name = v` reads as the
/// empty tree with the coerced `v` put at the nested key the name gives,
/// and nothing else.
pub proof fn law_env_single_kept_variable(
    p: QuantumConfigEnvProvider,
    vars: Seq<(Seq<char>, Seq<char>)>,
    k: Seq<char>,
    v: Seq<char>,
)
    requires
        p.kept_only(vars) == seq![(k, v)],
        has_prefix(k, p.prefix@),
        key_valid(k),
        value_valid(v),
        !(p.ignore_empty && v.len() == 0),
    ensures
        p.read_spec(vars) matches Ok(t) && t == tree_insert(
            Tree::Dict(Seq::empty()),
            p.entry_path(k),
            coerced(v),
        )->0 && tree_get(t, p.entry_path(k)) == Some(coerced(v)),
{
    lemma_kept_only(p, vars);
    law_env_variable_lands_at_its_path(p, k, v);
    let one = seq![(k, v)];
    assert(one.drop_last() =~= Seq::<(Seq<char>, Seq<char>)>::empty());
    assert(p.insert_spec(one.drop_last()) == Some(Tree::Dict(Seq::empty())));
    assert(one.last() == (k, v));
}

} // verus!
