//! The command-line provider: turns parsed arguments into a configuration
//! tree.
//!
//! Each argument that was supplied lands at its mapped key path (its own
//! name where no mapping is given), split on the separator. A set boolean
//! flag gives `true`; an unset one gives nothing, since absence means "not
//! overridden". One value gives a coerced leaf, several an array of them.

use crate::coerce::{coerce, coerced};
use crate::error::QuantumConfigError;
use crate::keys::{split_on, split_spec};
use crate::meta::str_eq;
use crate::value::{lemma_array_view, segs, tree_insert, tree_wf, ConfigValue, Tree};
use vstd::prelude::*;
use vstd::string::*;

verus! {

broadcast use vstd::std_specs::vec::group_vec_axioms;

/// What the parser recorded for one registered argument.
#[derive(Debug, Clone, PartialEq, Eq)]
pub enum ArgValue {
    /// A boolean flag, set or not.
    Flag(bool),
    /// The values given, in order; empty where the argument was not supplied.
    Values(Vec<String>),
}

/// One registered argument and what was supplied for it.
#[derive(Debug, Clone, PartialEq, Eq)]
pub struct ArgInput {
    pub name: String,
    pub value: ArgValue,
}

/// The model of an argument's value.
pub enum ArgModel {
    Flag(bool),
    Values(Seq<Seq<char>>),
}

pub open spec fn arg_model(a: ArgInput) -> (Seq<char>, ArgModel) {
    (
        a.name@,
        match a.value {
            ArgValue::Flag(b) => ArgModel::Flag(b),
            ArgValue::Values(vs) => ArgModel::Values(segs(vs@)),
        },
    )
}

pub open spec fn args_view(args: Seq<ArgInput>) -> Seq<(Seq<char>, ArgModel)> {
    args.map_values(|a: ArgInput| arg_model(a))
}

pub open spec fn mapping_view(m: Seq<(String, String)>) -> Seq<(Seq<char>, Seq<char>)> {
    m.map_values(|p: (String, String)| (p.0@, p.1@))
}

/// The key path text that argument `name` maps to: the first mapping for
/// it, or its own name.
pub open spec fn mapped_key(m: Seq<(Seq<char>, Seq<char>)>, name: Seq<char>) -> Seq<char>
    decreases m.len(),
{
    if m.len() == 0 {
        name
    } else if m[0].0 == name {
        m[0].1
    } else {
        mapped_key(m.drop_first(), name)
    }
}

/// What an argument contributes, if anything.
pub open spec fn contribution(v: ArgModel) -> Option<Tree> {
    match v {
        ArgModel::Flag(b) => if b {
            Some(Tree::Bool(true))
        } else {
            None
        },
        ArgModel::Values(vs) => if vs.len() == 0 {
            None
        } else if vs.len() == 1 {
            Some(coerced(vs[0]))
        } else {
            Some(Tree::Array(vs.map_values(|s: Seq<char>| coerced(s))))
        },
    }
}

/// The tree read from the arguments `args`, in order, starting empty; `None`
/// on a shape conflict.
pub open spec fn cli_tree(
    args: Seq<(Seq<char>, ArgModel)>,
    m: Seq<(Seq<char>, Seq<char>)>,
    sep: Seq<char>,
) -> Option<Tree>
    decreases args.len(),
{
    if args.len() == 0 {
        Some(Tree::Dict(Seq::empty()))
    } else {
        match cli_tree(args.drop_last(), m, sep) {
            Some(acc) => match contribution(args.last().1) {
                None => Some(acc),
                Some(leaf) => tree_insert(acc, split_spec(mapped_key(m, args.last().0), sep), leaf),
            },
            None => None,
        }
    }
}

/// `i` is the first entry of `args` named `name`.
pub open spec fn first_arg_at(args: Seq<ArgInput>, name: Seq<char>, i: int) -> bool {
    &&& 0 <= i < args.len()
    &&& args[i].name@ == name
    &&& forall|j: int| 0 <= j < i ==> args[j].name@ != name
}

/// There is one first entry of a name.
proof fn lemma_first_arg_unique(args: Seq<ArgInput>, name: Seq<char>, i: int)
    requires
        first_arg_at(args, name, i),
    ensures
        forall|k: int| #[trigger] first_arg_at(args, name, k) ==> k == i,
{
    assert forall|k: int| #[trigger] first_arg_at(args, name, k) implies k == i by {
        if k < i {
            assert(args[k].name@ != name);
        } else if i < k {
            assert(args[i].name@ != name);
        }
    }
}

/// Reads parsed command-line arguments into a configuration tree.
#[derive(Debug, Clone)]
pub struct QuantumConfigClapProvider {
    /// The registered arguments.
    pub matches: Vec<ArgInput>,
    /// Argument name to configuration key path; the first entry for a name
    /// counts.
    pub arg_mapping: Vec<(String, String)>,
    /// Splits a key path into nested keys.
    pub separator: String,
}

fn find_mapping(m: &Vec<(String, String)>, name: &String) -> (r: String)
    ensures
        r@ == mapped_key(mapping_view(m@), name@),
{
    let ghost mv = mapping_view(m@);
    let mut i: usize = 0;
    assert(mv.subrange(0, m.len() as int) =~= mv);
    while i < m.len()
        invariant
            mv == mapping_view(m@),
            i <= m.len(),
            mapped_key(mv, name@) == mapped_key(mv.subrange(i as int, m.len() as int), name@),
        decreases m.len() - i,
    {
        assert(mv.subrange(i as int, m.len() as int).drop_first() =~= mv.subrange(
            i + 1,
            m.len() as int,
        ));
        if m[i].0 == *name {
            return m[i].1.clone();
        }
        i = i + 1;
    }
    name.clone()
}

fn coerce_all(vs: &Vec<String>) -> (r: Vec<ConfigValue>)
    ensures
        r@.map_values(|v: ConfigValue| v@) == segs(vs@).map_values(|s: Seq<char>| coerced(s)),
{
    let mut r: Vec<ConfigValue> = Vec::new();
    let mut i: usize = 0;
    while i < vs.len()
        invariant
            i <= vs.len(),
            r@.len() == i,
            forall|j: int| 0 <= j < i ==> (#[trigger] r@[j])@ == coerced(vs@[j]@),
        decreases vs.len() - i,
    {
        r.push(coerce(vs[i].as_str()));
        i = i + 1;
    }
    assert(r@.map_values(|v: ConfigValue| v@) =~= segs(vs@).map_values(|s: Seq<char>| coerced(s)));
    r
}

impl QuantumConfigClapProvider {
    pub fn new(matches: Vec<ArgInput>, arg_mapping: Vec<(String, String)>, separator: String) -> (r:
        Self)
        ensures
            r.matches == matches,
            r.arg_mapping == arg_mapping,
            r.separator == separator,
    {
        QuantumConfigClapProvider { matches, arg_mapping, separator }
    }

    /// A provider with no mappings and `.` as separator.
    pub fn from_matches(matches: Vec<ArgInput>) -> (r: Self)
        ensures
            r.matches == matches,
            r.arg_mapping@.len() == 0,
            r.separator@ == "."@,
    {
        Self::new(matches, Vec::new(), String::from_str("."))
    }

    /// Maps argument `arg_name` to the key path `config_key`, replacing an
    /// earlier mapping for it.
    pub fn map_arg(self, arg_name: &str, config_key: &str) -> (r: Self)
        ensures
            r.matches == self.matches,
            r.separator == self.separator,
            forall|n: Seq<char>|
                #[trigger] mapped_key(mapping_view(r.arg_mapping@), n) == if n == arg_name@ {
                    config_key@
                } else {
                    mapped_key(mapping_view(self.arg_mapping@), n)
                },
    {
        let mut m = self.arg_mapping;
        let ghost old_m = mapping_view(m@);
        m.insert(0, (String::from_str(arg_name), String::from_str(config_key)));
        assert(mapping_view(m@).drop_first() =~= old_m);
        QuantumConfigClapProvider { matches: self.matches, arg_mapping: m, separator: self.separator }
    }

    /// Uses `separator` to split key paths.
    pub fn with_separator(self, separator: &str) -> (r: Self)
        ensures
            r.matches == self.matches,
            r.arg_mapping == self.arg_mapping,
            r.separator@ == separator@,
    {
        QuantumConfigClapProvider {
            matches: self.matches,
            arg_mapping: self.arg_mapping,
            separator: String::from_str(separator),
        }
    }

    /// What was supplied for argument `arg_name`, going by the first entry
    /// of that name: `None` for a flag and for a value argument that was not
    /// supplied (no contribution), the values otherwise. Asking for an
    /// argument that was never registered is an error.
    pub fn get_arg_values(&self, arg_name: &str) -> (r: Result<
        Option<Vec<String>>,
        QuantumConfigError,
    >)
        ensures
            r is Err <==> forall|i: int|
                0 <= i < self.matches@.len() ==> self.matches@[i].name@ != arg_name@,
            r matches Err(e) ==> e is Internal,
            forall|i: int|
                #[trigger] first_arg_at(self.matches@, arg_name@, i) ==> match self.matches@[i].value {
                    ArgValue::Flag(_) => r == Ok::<Option<Vec<String>>, QuantumConfigError>(None),
                    ArgValue::Values(vs) => if vs@.len() == 0 {
                        r == Ok::<Option<Vec<String>>, QuantumConfigError>(None)
                    } else {
                        r matches Ok(Some(out)) && segs(out@) == segs(vs@)
                    },
                },
    {
        let mut i: usize = 0;
        while i < self.matches.len()
            invariant
                i <= self.matches@.len(),
                forall|j: int| 0 <= j < i ==> self.matches@[j].name@ != arg_name@,
            decreases self.matches@.len() - i,
        {
            if str_eq(self.matches[i].name.as_str(), arg_name) {
                proof {
                    lemma_first_arg_unique(self.matches@, arg_name@, i as int);
                }
                return match &self.matches[i].value {
                    ArgValue::Flag(_) => Ok(None),
                    ArgValue::Values(vs) => {
                        if vs.len() == 0 {
                            Ok(None)
                        } else {
                            let out = vs.clone();
                            assert(segs(out@) =~= segs(vs@));
                            Ok(Some(out))
                        }
                    },
                };
            }
            i = i + 1;
        }
        Err(
            QuantumConfigError::Internal(
                String::from_str("Argument '").concat(arg_name).concat("' not found"),
            ),
        )
    }

    /// Whether argument `arg_name` is a boolean flag that was set, going by
    /// the first entry of that name.
    pub fn is_flag_set(&self, arg_name: &str) -> (r: bool)
        ensures
            r == exists|i: int|
                #[trigger] first_arg_at(self.matches@, arg_name@, i) && self.matches@[i].value
                    == ArgValue::Flag(true),
    {
        let mut i: usize = 0;
        while i < self.matches.len()
            invariant
                i <= self.matches@.len(),
                forall|j: int| 0 <= j < i ==> self.matches@[j].name@ != arg_name@,
            decreases self.matches@.len() - i,
        {
            if str_eq(self.matches[i].name.as_str(), arg_name) {
                proof {
                    lemma_first_arg_unique(self.matches@, arg_name@, i as int);
                }
                assert(first_arg_at(self.matches@, arg_name@, i as int));
                return match &self.matches[i].value {
                    ArgValue::Flag(b) => *b,
                    ArgValue::Values(_) => false,
                };
            }
            i = i + 1;
        }
        false
    }

    /// Coerces one argument value into a typed leaf.
    pub fn parse_arg_value(&self, value: &str) -> (r: Result<ConfigValue, QuantumConfigError>)
        ensures
            r matches Ok(v) && v@ == coerced(value@),
    {
        Ok(coerce(value))
    }

    /// What argument `a` contributes, if anything.
    fn arg_leaf(a: &ArgInput) -> (r: Option<ConfigValue>)
        ensures
            match r {
                Some(v) => contribution(arg_model(*a).1) == Some(v@) && tree_wf(v@),
                None => contribution(arg_model(*a).1) is None,
            },
    {
        match &a.value {
            ArgValue::Flag(b) => if *b {
                Some(ConfigValue::Bool(true))
            } else {
                None
            },
            ArgValue::Values(vs) => {
                if vs.len() == 0 {
                    None
                } else if vs.len() == 1 {
                    Some(coerce(vs[0].as_str()))
                } else {
                    let items = coerce_all(vs);
                    proof {
                        lemma_array_view(items);
                        let tv = items@.map_values(|v: ConfigValue| v@);
                        assert forall|j: int| 0 <= j < tv.len() implies tree_wf(#[trigger] tv[j]) by {
                            assert(tv[j] == segs(vs@).map_values(|s: Seq<char>| coerced(s))[j]);
                        }
                    }
                    Some(ConfigValue::Array(items))
                }
            },
        }
    }

    /// Reads the arguments into a tree; a shape conflict between two of
    /// them fails the whole read.
    pub fn read_clap_args(&self) -> (r: Result<ConfigValue, QuantumConfigError>)
        ensures
            match r {
                Ok(t) => cli_tree(args_view(self.matches@), mapping_view(self.arg_mapping@), self.separator@)
                    == Some(t@) && tree_wf(t@),
                Err(e) => cli_tree(
                    args_view(self.matches@),
                    mapping_view(self.arg_mapping@),
                    self.separator@,
                ) is None && e is Internal,
            },
    {
        let ghost av = args_view(self.matches@);
        let ghost mv = mapping_view(self.arg_mapping@);
        let mut tree = ConfigValue::empty_dict();
        let mut i: usize = 0;
        assert(av.subrange(0, 0) =~= Seq::<(Seq<char>, ArgModel)>::empty());
        while i < self.matches.len()
            invariant
                av == args_view(self.matches@),
                mv == mapping_view(self.arg_mapping@),
                i <= self.matches.len(),
                cli_tree(av.subrange(0, i as int), mv, self.separator@) == Some(tree@),
                tree_wf(tree@),
            decreases self.matches.len() - i,
        {
            assert(av.subrange(0, i + 1).drop_last() =~= av.subrange(0, i as int));
            assert(av.subrange(0, i + 1).last() == arg_model(self.matches@[i as int]));
            let a = &self.matches[i];
            match Self::arg_leaf(a) {
                None => {},
                Some(leaf) => {
                    let key = find_mapping(&self.arg_mapping, &a.name);
                    let parts = split_on(key.as_str(), self.separator.as_str());
                    assert(segs(parts@) =~= parts@.map_values(|x: String| x@));
                    match tree.insert_path(&parts, leaf) {
                        Ok(()) => {},
                        Err(e) => {
                            proof {
                                lemma_cli_stays_none(av, mv, self.separator@, i + 1);
                            }
                            return Err(e);
                        },
                    }
                },
            }
            i = i + 1;
        }
        assert(av.subrange(0, self.matches.len() as int) =~= av);
        Ok(tree)
    }
}

proof fn lemma_cli_stays_none(
    args: Seq<(Seq<char>, ArgModel)>,
    m: Seq<(Seq<char>, Seq<char>)>,
    sep: Seq<char>,
    j: int,
)
    requires
        0 <= j <= args.len(),
        cli_tree(args.subrange(0, j), m, sep) is None,
    ensures
        cli_tree(args, m, sep) is None,
    decreases args.len() - j,
{
    if j < args.len() {
        assert(args.subrange(0, j + 1).drop_last() =~= args.subrange(0, j));
        lemma_cli_stays_none(args, m, sep, j + 1);
    } else {
        assert(args.subrange(0, j) =~= args);
    }
}

/// A provider with the usual mappings: `config` to `config_file`,
/// `config-dir` to `config_dir`, `log-level` to `log_level`, `verbose` and
/// `quiet` to themselves, `output` to `output.file`, `format` to
/// `output.format`.
pub fn with_common_mappings(matches: Vec<ArgInput>) -> (r: QuantumConfigClapProvider)
    ensures
        r.matches == matches,
        r.separator@ == "."@,
        mapped_key(mapping_view(r.arg_mapping@), "config"@) == "config_file"@,
        mapped_key(mapping_view(r.arg_mapping@), "config-dir"@) == "config_dir"@,
        mapped_key(mapping_view(r.arg_mapping@), "log-level"@) == "log_level"@,
        mapped_key(mapping_view(r.arg_mapping@), "verbose"@) == "verbose"@,
        mapped_key(mapping_view(r.arg_mapping@), "quiet"@) == "quiet"@,
        mapped_key(mapping_view(r.arg_mapping@), "output"@) == "output.file"@,
        mapped_key(mapping_view(r.arg_mapping@), "format"@) == "output.format"@,
{
    let mut m: Vec<(String, String)> = Vec::new();
    m.push((String::from_str("config"), String::from_str("config_file")));
    m.push((String::from_str("config-dir"), String::from_str("config_dir")));
    m.push((String::from_str("log-level"), String::from_str("log_level")));
    m.push((String::from_str("verbose"), String::from_str("verbose")));
    m.push((String::from_str("quiet"), String::from_str("quiet")));
    m.push((String::from_str("output"), String::from_str("output.file")));
    m.push((String::from_str("format"), String::from_str("output.format")));
    proof {
        reveal_strlit("config");
        reveal_strlit("config-dir");
        reveal_strlit("log-level");
        reveal_strlit("verbose");
        reveal_strlit("quiet");
        reveal_strlit("output");
        reveal_strlit("format");
        reveal_with_fuel(mapped_key, 8);
        assert("config"@.len() != "config-dir"@.len());
        assert("config"@.len() != "log-level"@.len());
        assert("config-dir"@.len() != "log-level"@.len());
        assert("verbose"@.len() == 7 && "quiet"@.len() == 5 && "output"@.len() == 6);
        assert("format"@.len() == 6 && "config-dir"@.len() == 10 && "log-level"@.len() == 9);
        assert("config"@[0] != "output"@[0] && "config"@[0] != "format"@[0]);
        assert("output"@[0] != "format"@[0]);
        let mv = mapping_view(m@);
        assert(mv =~= seq![
            ("config"@, "config_file"@),
            ("config-dir"@, "config_dir"@),
            ("log-level"@, "log_level"@),
            ("verbose"@, "verbose"@),
            ("quiet"@, "quiet"@),
            ("output"@, "output.file"@),
            ("format"@, "output.format"@),
        ]);
        assert(mv.drop_first() =~= mv.subrange(1, 7));
        assert(mv.subrange(1, 7).drop_first() =~= mv.subrange(2, 7));
        assert(mv.subrange(2, 7).drop_first() =~= mv.subrange(3, 7));
        assert(mv.subrange(3, 7).drop_first() =~= mv.subrange(4, 7));
        assert(mv.subrange(4, 7).drop_first() =~= mv.subrange(5, 7));
        assert(mv.subrange(5, 7).drop_first() =~= mv.subrange(6, 7));
    }
    QuantumConfigClapProvider { matches, arg_mapping: m, separator: String::from_str(".") }
}

} // verus!
