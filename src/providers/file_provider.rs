//! The file provider: reads one configuration file and turns it into a
//! tree.
//!
//! TOML and JSON carry their own types and are converted type for type by a
//! converter that counts its depth and fails once it passes the configured
//! limit. INI has one level of sections and string values: section-less keys
//! go to the root, each section becomes one dictionary, and values are
//! coerced like environment values.

use crate::coerce::{chars_of, coerce, coerced, eq_lower, lower_seq};
use crate::error::{display_path_spec, sanitize_path_for_display, QuantumConfigError};
use crate::paths::{extension_of, path_extension};
use crate::providers::env_provider::pairs_view;
use crate::providers::file_reader::FileReader;
use crate::value::{entries_view, find_key, keys_unique, lemma_array_view, lemma_dict_view, segs, tree_insert, tree_wf, ConfigValue, Tree};
use vstd::prelude::*;
use vstd::string::*;

verus! {

broadcast use vstd::std_specs::vec::group_vec_axioms;

#[verifier::external_type_specification]
#[verifier::external_body]
pub struct ExJsonValue(serde_json::Value);

#[verifier::external_type_specification]
#[verifier::external_body]
pub struct ExJsonNumber(serde_json::Number);

/// A JSON (or TOML) document as plain values. A number carries what
/// `Number::as_i64` and `Number::as_u64` give for it and its shortest
/// decimal text.
pub enum JsonModel {
    Null,
    Bool(bool),
    Number(Option<int>, Option<int>, Seq<char>),
    Str(Seq<char>),
    Array(Seq<JsonModel>),
    Object(Seq<(Seq<char>, JsonModel)>),
}

/// The document that the parsed value `v` holds.
pub uninterp spec fn json_model(v: serde_json::Value) -> JsonModel;

/// The document that `serde_json` reads from `text`, or `None` where it
/// refuses the text.
pub uninterp spec fn json_doc_of(text: Seq<char>) -> Option<JsonModel>;

/// The document that `toml` reads from `text`, or `None` where it refuses
/// the text.
pub uninterp spec fn toml_doc_of(text: Seq<char>) -> Option<JsonModel>;

/// One level of a parsed JSON (or TOML) document.
pub enum JsonNode {
    Null,
    Bool(bool),
    Number(Option<i64>, Option<u64>, String),
    Str(String),
    Array(Vec<serde_json::Value>),
    Object(Vec<(String, serde_json::Value)>),
}

/// The models of a list of parsed values.
pub open spec fn json_models(vs: Seq<serde_json::Value>) -> Seq<JsonModel> {
    vs.map_values(|x: serde_json::Value| json_model(x))
}

/// The models of the entries of a parsed object.
pub open spec fn json_entry_models(es: Seq<(String, serde_json::Value)>) -> Seq<
    (Seq<char>, JsonModel),
> {
    es.map_values(|p: (String, serde_json::Value)| (p.0@, json_model(p.1)))
}

/// Relies on `serde_json::Value`'s variants, on `Number::as_i64`,
/// `Number::as_u64` and `Number`'s `Display` (shortest decimal text), all
/// three handed on as they come, and on an object being a map, whose keys
/// are distinct.
#[verifier::external_body]
fn json_node(v: &serde_json::Value) -> (r: JsonNode)
    ensures
        match r {
            JsonNode::Null => json_model(*v) == JsonModel::Null,
            JsonNode::Bool(b) => json_model(*v) == JsonModel::Bool(b),
            JsonNode::Number(i, u, t) => json_model(*v) == JsonModel::Number(
                match i {
                    Some(x) => Some(x as int),
                    None => None,
                },
                match u {
                    Some(x) => Some(x as int),
                    None => None,
                },
                t@,
            ),
            JsonNode::Str(s) => json_model(*v) == JsonModel::Str(s@),
            JsonNode::Array(items) => json_model(*v) == JsonModel::Array(json_models(items@)),
            JsonNode::Object(es) => {
                &&& json_model(*v) == JsonModel::Object(json_entry_models(es@))
                &&& forall|i: int, j: int|
                    0 <= i < es@.len() && 0 <= j < es@.len() && es@[i].0@ == es@[j].0@ ==> i == j
            },
        },
{
    match v {
        serde_json::Value::Null => JsonNode::Null,
        serde_json::Value::Bool(b) => JsonNode::Bool(*b),
        serde_json::Value::Number(n) => JsonNode::Number(n.as_i64(), n.as_u64(), n.to_string()),
        serde_json::Value::String(s) => JsonNode::Str(s.clone()),
        serde_json::Value::Array(a) => JsonNode::Array(a.clone()),
        serde_json::Value::Object(o) => JsonNode::Object(
            o.iter().map(|(k, x)| (k.clone(), x.clone())).collect(),
        ),
    }
}

/// Deepest bracket nesting handed to the JSON parser: twice serde_json's own
/// default recursion limit of 128. The parser, the converter and dropping
/// the parsed value each descend once per level, and a few hundred levels of
/// each stay far within the smallest thread stack Rust starts with (2 MiB).
pub const MAX_JSON_NESTING: u64 = 256;

/// Relies on `serde_json::Deserializer` (`from_str`, `disable_recursion_limit`,
/// `end`): parses a whole JSON document. The recursion limit is lifted
/// because `MAX_JSON_NESTING`, checked before, bounds the descent instead.
#[verifier::external_body]
fn json_parse(text: &str) -> (r: Result<serde_json::Value, String>)
    requires
        json_nesting(text@) <= MAX_JSON_NESTING,
    ensures
        match r {
            Ok(v) => json_doc_of(text@) == Some(json_model(v)),
            Err(_) => json_doc_of(text@) is None,
        },
{
    let mut de = serde_json::Deserializer::from_str(text);
    de.disable_recursion_limit();
    let parsed: Result<serde_json::Value, serde_json::Error> = serde::Deserialize::deserialize(
        &mut de,
    );
    match parsed.and_then(|v| de.end().map(|()| v)) {
        Ok(v) => Ok(v),
        Err(e) => Err(e.to_string()),
    }
}

/// Relies on `toml::from_str`: parses a TOML document into JSON values; its
/// parser refuses nesting deeper than 80 levels.
#[verifier::external_body]
fn toml_parse(text: &str) -> (r: Result<serde_json::Value, String>)
    ensures
        match r {
            Ok(v) => toml_doc_of(text@) == Some(json_model(v)),
            Err(_) => toml_doc_of(text@) is None,
        },
{
    match toml::from_str::<serde_json::Value>(text) {
        Ok(v) => Ok(v),
        Err(e) => Err(e.to_string()),
    }
}

/// No node of document `d` lies deeper than `b` levels below it.
pub open spec fn doc_within(d: JsonModel, b: int) -> bool
    decreases d,
{
    match d {
        JsonModel::Array(vs) => b >= 0 && forall|i: int|
            0 <= i < vs.len() ==> doc_within(#[trigger] vs[i], b - 1),
        JsonModel::Object(es) => b >= 0 && forall|i: int|
            0 <= i < es.len() ==> doc_within(#[trigger] es[i].1, b - 1),
        _ => b >= 0,
    }
}

/// The configuration tree of document `d`: node for node, with `null` as
/// the string `"null"`.
pub open spec fn doc_tree(d: JsonModel) -> Tree
    decreases d,
{
    match d {
        JsonModel::Null => Tree::Str("null"@),
        JsonModel::Bool(b) => Tree::Bool(b),
        JsonModel::Number(i, u, t) => match i {
            Some(x) => Tree::Int(x),
            None => match u {
                Some(y) => Tree::UInt(y),
                None => Tree::Float(t),
            },
        },
        JsonModel::Str(s) => Tree::Str(s),
        JsonModel::Array(vs) => Tree::Array(
            Seq::new(
                vs.len(),
                |i: int|
                    if 0 <= i < vs.len() {
                        doc_tree(vs[i])
                    } else {
                        Tree::Bool(false)
                    },
            ),
        ),
        JsonModel::Object(es) => Tree::Dict(
            Seq::new(
                es.len(),
                |i: int|
                    if 0 <= i < es.len() {
                        (es[i].0, doc_tree(es[i].1))
                    } else {
                        (Seq::empty(), Tree::Bool(false))
                    },
            ),
        ),
    }
}

/// The message of a breach of the depth limit in file `path`; only the
/// file name is shown.
pub open spec fn depth_message(path: Seq<char>) -> Seq<char> {
    "configuration parsing depth limit exceeded in file: "@ + display_path_spec(path, false)
}

fn depth_error(path: &String) -> (e: QuantumConfigError)
    ensures
        e matches QuantumConfigError::Internal(m) && m@ == depth_message(path@),
{
    QuantumConfigError::Internal(
        String::from_str("configuration parsing depth limit exceeded in file: ").concat(
            sanitize_path_for_display(path.as_str(), false).as_str(),
        ),
    )
}

/// The sections of an INI document: a name (none for keys before the first
/// header) and the key/value pairs, in order.
pub type IniSections = Vec<(Option<String>, Vec<(String, String)>)>;

/// The model of INI sections.
pub open spec fn sections_view(s: Seq<(Option<String>, Vec<(String, String)>)>) -> Seq<
    (Option<Seq<char>>, Seq<(Seq<char>, Seq<char>)>),
> {
    s.map_values(
        |x: (Option<String>, Vec<(String, String)>)|
            (
                match x.0 {
                    Some(n) => Some(n@),
                    None => None,
                },
                pairs_view(x.1@),
            ),
    )
}

/// What `ini::Ini::load_from_str` reads from `text`, or `None` where it
/// refuses the text.
pub uninterp spec fn ini_sections_of(text: Seq<char>) -> Option<
    Seq<(Option<Seq<char>>, Seq<(Seq<char>, Seq<char>)>)>,
>;

/// Relies on `ini::Ini::load_from_str` and its section and property
/// iterators, which keep the order of the text.
#[verifier::external_body]
fn ini_parse(text: &str) -> (r: Result<IniSections, String>)
    ensures
        match r {
            Ok(s) => ini_sections_of(text@) == Some(sections_view(s@)),
            Err(_) => ini_sections_of(text@) is None,
        },
{
    match ini::Ini::load_from_str(text) {
        Ok(ini) => Ok(
            ini.iter().map(
                |(name, props)|
                    (
                        name.map(|n| n.to_string()),
                        props.iter().map(|(k, v)| (k.to_string(), v.to_string())).collect(),
                    ),
            ).collect(),
        ),
        Err(e) => Err(e.to_string()),
    }
}

/// The dictionary `acc` with the coerced properties `props` put at their
/// keys, in order.
pub open spec fn props_into(acc: Tree, props: Seq<(Seq<char>, Seq<char>)>) -> Option<Tree>
    decreases props.len(),
{
    if props.len() == 0 {
        Some(acc)
    } else {
        match props_into(acc, props.drop_last()) {
            Some(t) => tree_insert(t, seq![props.last().0], coerced(props.last().1)),
            None => None,
        }
    }
}

/// The tree of INI sections: section-less keys at the root, each named
/// section one dictionary (a later section of the same name replaces an
/// earlier one).
pub open spec fn ini_tree(secs: Seq<(Option<Seq<char>>, Seq<(Seq<char>, Seq<char>)>)>) -> Option<
    Tree,
>
    decreases secs.len(),
{
    if secs.len() == 0 {
        Some(Tree::Dict(Seq::empty()))
    } else {
        match ini_tree(secs.drop_last()) {
            Some(acc) => {
                let (name, props) = secs.last();
                match name {
                    None => props_into(acc, props),
                    Some(n) => match props_into(Tree::Dict(Seq::empty()), props) {
                        Some(d) => tree_insert(acc, seq![n], d),
                        None => None,
                    },
                }
            },
            None => None,
        }
    }
}

/// The state of a bracket scan over JSON text: the current nesting, the
/// deepest nesting seen, whether inside a string, and whether the previous
/// character inside a string was a backslash. Closing brackets never take
/// the nesting below zero.
pub open spec fn json_scan(s: Seq<char>) -> (int, int, bool, bool)
    decreases s.len(),
{
    if s.len() == 0 {
        (0, 0, false, false)
    } else {
        let (d, m, in_str, esc) = json_scan(s.drop_last());
        let c = s.last();
        if in_str {
            if esc {
                (d, m, true, false)
            } else if c == '\\' {
                (d, m, true, true)
            } else if c == '"' {
                (d, m, false, false)
            } else {
                (d, m, true, false)
            }
        } else if c == '"' {
            (d, m, true, false)
        } else if c == '{' || c == '[' {
            (d + 1, if d + 1 > m {
                d + 1
            } else {
                m
            }, false, false)
        } else if c == '}' || c == ']' {
            (if d > 0 {
                d - 1
            } else {
                0
            }, m, false, false)
        } else {
            (d, m, false, false)
        }
    }
}

/// The deepest bracket nesting of the JSON text `s`, brackets inside
/// strings not counted.
pub open spec fn json_nesting(s: Seq<char>) -> int {
    json_scan(s).1
}

proof fn lemma_json_scan_bounds(s: Seq<char>)
    ensures
        0 <= json_scan(s).0 <= json_scan(s).1,
    decreases s.len(),
{
    if s.len() > 0 {
        lemma_json_scan_bounds(s.drop_last());
    }
}

/// The deepest nesting never shrinks as the text goes on.
proof fn lemma_json_nesting_grows(s: Seq<char>, j: int)
    requires
        0 <= j <= s.len(),
    ensures
        json_nesting(s.subrange(0, j)) <= json_nesting(s),
    decreases s.len() - j,
{
    if j < s.len() {
        lemma_json_nesting_grows(s, j + 1);
        assert(s.subrange(0, j + 1).drop_last() =~= s.subrange(0, j));
    } else {
        assert(s.subrange(0, j) =~= s);
    }
}

/// Whether the JSON text `text` nests brackets more than `limit` deep.
/// Deeper documents are refused before the parser, which descends once
/// per level, ever sees them.
pub fn json_nesting_exceeds(text: &str, limit: u64) -> (r: bool)
    requires
        limit < u64::MAX,
    ensures
        r == (json_nesting(text@) > limit),
{
    let cs = chars_of(text);
    let mut d: u64 = 0;
    let mut m: u64 = 0;
    let mut in_str = false;
    let mut esc = false;
    let mut i: usize = 0;
    while i < cs.len()
        invariant
            cs@ == text@,
            limit < u64::MAX,
            i <= cs.len(),
            json_scan(cs@.subrange(0, i as int)) == (d as int, m as int, in_str, esc),
            m <= limit,
        decreases cs.len() - i,
    {
        let c = cs[i];
        proof {
            assert(cs@.subrange(0, i + 1).drop_last() =~= cs@.subrange(0, i as int));
            lemma_json_scan_bounds(cs@.subrange(0, i as int));
        }
        if in_str {
            if esc {
                esc = false;
            } else if c == '\\' {
                esc = true;
            } else if c == '"' {
                in_str = false;
            }
        } else if c == '"' {
            in_str = true;
        } else if c == '{' || c == '[' {
            d = d + 1;
            if d > m {
                m = d;
            }
            if m > limit {
                proof {
                    lemma_json_nesting_grows(cs@, i + 1);
                }
                return true;
            }
        } else if c == '}' || c == ']' {
            if d > 0 {
                d = d - 1;
            }
        }
        i = i + 1;
    }
    assert(cs@.subrange(0, cs.len() as int) =~= cs@);
    false
}

/// Format of a configuration file.
#[derive(Debug, Clone, Copy, PartialEq, Eq, Structural)]
pub enum FileFormat {
    Toml,
    Json,
    Ini,
}

/// The format whose extension `ext` is, in any case.
pub open spec fn format_of_extension(ext: Seq<char>) -> Option<FileFormat> {
    let l = lower_seq(ext);
    if l == "toml"@ {
        Some(FileFormat::Toml)
    } else if l == "json"@ {
        Some(FileFormat::Json)
    } else if l == "ini"@ {
        Some(FileFormat::Ini)
    } else {
        None
    }
}

impl FileFormat {
    /// The format with extension `ext`, compared without regard to case.
    pub fn from_extension(ext: &str) -> (r: Option<Self>)
        ensures
            r == format_of_extension(ext@),
    {
        let cs = chars_of(ext);
        if eq_lower(&cs, "toml") {
            Some(FileFormat::Toml)
        } else if eq_lower(&cs, "json") {
            Some(FileFormat::Json)
        } else if eq_lower(&cs, "ini") {
            Some(FileFormat::Ini)
        } else {
            None
        }
    }

    pub fn extension(&self) -> (r: &'static str)
        ensures
            r@ == match self {
                FileFormat::Toml => "toml"@,
                FileFormat::Json => "json"@,
                FileFormat::Ini => "ini"@,
            },
    {
        match self {
            FileFormat::Toml => "toml",
            FileFormat::Json => "json",
            FileFormat::Ini => "ini",
        }
    }
}

/// Puts the coerced `props` into the dictionary `acc`, in order.
fn insert_props(acc: &mut ConfigValue, props: &Vec<(String, String)>) -> (r: Result<(), QuantumConfigError>)
    ensures
        match r {
            Ok(()) => props_into(old(acc)@, pairs_view(props@)) == Some(final(acc)@),
            Err(e) => props_into(old(acc)@, pairs_view(props@)) is None && e is Internal,
        },
        r is Ok && tree_wf(old(acc)@) ==> tree_wf(final(acc)@),
{
    let ghost pv = pairs_view(props@);
    let ghost start = acc@;
    let mut i: usize = 0;
    assert(pv.subrange(0, 0) =~= Seq::<(Seq<char>, Seq<char>)>::empty());
    while i < props.len()
        invariant
            pv == pairs_view(props@),
            start == old(acc)@,
            tree_wf(start) ==> tree_wf(acc@),
            i <= props.len(),
            props_into(start, pv.subrange(0, i as int)) == Some(acc@),
        decreases props.len() - i,
    {
        assert(pv.subrange(0, i + 1).drop_last() =~= pv.subrange(0, i as int));
        let mut path: Vec<String> = Vec::new();
        path.push(props[i].0.clone());
        assert(segs(path@) =~= seq![pv[i as int].0]);
        let leaf = coerce(props[i].1.as_str());
        assert(pv.subrange(0, i + 1).last() == pv[i as int]);
        assert(tree_wf(leaf@));
        match acc.insert_path(&path, leaf) {
            Ok(()) => {},
            Err(e) => {
                proof {
                    lemma_props_stay_none(start, pv, i + 1);
                }
                return Err(e);
            },
        }
        i = i + 1;
    }
    assert(pv.subrange(0, props.len() as int) =~= pv);
    Ok(())
}

proof fn lemma_props_stay_none(acc: Tree, props: Seq<(Seq<char>, Seq<char>)>, j: int)
    requires
        0 <= j <= props.len(),
        props_into(acc, props.subrange(0, j)) is None,
    ensures
        props_into(acc, props) is None,
    decreases props.len() - j,
{
    if j < props.len() {
        assert(props.subrange(0, j + 1).drop_last() =~= props.subrange(0, j));
        lemma_props_stay_none(acc, props, j + 1);
    } else {
        assert(props.subrange(0, j) =~= props);
    }
}

proof fn lemma_ini_stays_none(secs: Seq<(Option<Seq<char>>, Seq<(Seq<char>, Seq<char>)>)>, j: int)
    requires
        0 <= j <= secs.len(),
        ini_tree(secs.subrange(0, j)) is None,
    ensures
        ini_tree(secs) is None,
    decreases secs.len() - j,
{
    if j < secs.len() {
        assert(secs.subrange(0, j + 1).drop_last() =~= secs.subrange(0, j));
        lemma_ini_stays_none(secs, j + 1);
    } else {
        assert(secs.subrange(0, j) =~= secs);
    }
}

/// Builds the tree of parsed INI sections (see `ini_tree`).
pub fn ini_to_tree(sections: &IniSections) -> (r: Result<ConfigValue, QuantumConfigError>)
    ensures
        match r {
            Ok(v) => ini_tree(sections_view(sections@)) == Some(v@) && tree_wf(v@),
            Err(e) => ini_tree(sections_view(sections@)) is None && e is Internal,
        },
{
    let ghost sv = sections_view(sections@);
    let mut root = ConfigValue::empty_dict();
    let mut i: usize = 0;
    assert(sv.subrange(0, 0) =~= Seq::<(Option<Seq<char>>, Seq<(Seq<char>, Seq<char>)>)>::empty());
    while i < sections.len()
        invariant
            sv == sections_view(sections@),
            i <= sections.len(),
            ini_tree(sv.subrange(0, i as int)) == Some(root@),
            tree_wf(root@),
        decreases sections.len() - i,
    {
        assert(sv.subrange(0, i + 1).drop_last() =~= sv.subrange(0, i as int));
        let props = &sections[i].1;
        assert(sv[i as int].1 == pairs_view(props@));
        match &sections[i].0 {
            None => {
                match insert_props(&mut root, props) {
                    Ok(()) => {
                        assert(tree_wf(root@));
                    },
                    Err(e) => {
                        proof {
                            lemma_ini_stays_none(sv, i + 1);
                        }
                        return Err(e);
                    },
                }
            },
            Some(name) => {
                let mut section = ConfigValue::empty_dict();
                assert(tree_wf(section@));
                match insert_props(&mut section, props) {
                    Ok(()) => {},
                    Err(e) => {
                        proof {
                            lemma_ini_stays_none(sv, i + 1);
                        }
                        return Err(e);
                    },
                }
                let mut path: Vec<String> = Vec::new();
                path.push(name.clone());
                assert(segs(path@) =~= seq![name@]);
                let ghost sec_view = section@;
                assert(tree_wf(sec_view));
                match root.insert_path(&path, section) {
                    Ok(()) => {
                        assert(tree_wf(root@));
                    },
                    Err(e) => {
                        proof {
                            lemma_ini_stays_none(sv, i + 1);
                        }
                        return Err(e);
                    },
                }
            },
        }
        i = i + 1;
    }
    assert(sv.subrange(0, sections.len() as int) =~= sv);
    Ok(root)
}

/// Reads one configuration file through a [`FileReader`].
#[derive(Debug, Clone)]
pub struct LingoFileProviderGeneric<R: FileReader> {
    pub path: String,
    pub format: FileFormat,
    /// A required file that is missing is an error; an optional one gives
    /// an empty dictionary.
    pub is_required: bool,
    /// Deepest nesting accepted in the file.
    pub max_parse_depth: u32,
    pub reader: R,
}

impl<R: FileReader> LingoFileProviderGeneric<R> {
    pub fn new(path: &str, format: FileFormat, is_required: bool, max_parse_depth: u32, reader: R) -> (r:
        Self)
        ensures
            r.path@ == path@,
            r.format == format,
            r.is_required == is_required,
            r.max_parse_depth == max_parse_depth,
            r.reader == reader,
    {
        LingoFileProviderGeneric {
            path: String::from_str(path),
            format,
            is_required,
            max_parse_depth,
            reader,
        }
    }

    /// A provider whose format is named by the extension of `path`; fails
    /// with `UnsupportedFormat` where the extension names none.
    pub fn from_path(path: &str, is_required: bool, max_parse_depth: u32, reader: R) -> (r: Result<
        Self,
        QuantumConfigError,
    >)
        ensures
            match r {
                Ok(p) => {
                    &&& extension_of(path@) matches Some(e)
                    &&& format_of_extension(e) == Some(p.format)
                    &&& p.path@ == path@
                    &&& p.is_required == is_required
                    &&& p.max_parse_depth == max_parse_depth
                    &&& p.reader == reader
                },
                Err(e) => {
                    &&& e matches QuantumConfigError::UnsupportedFormat { path: p } && p@ == path@
                    &&& match extension_of(path@) {
                        Some(e) => format_of_extension(e) is None,
                        None => true,
                    }
                },
            },
    {
        let format = match path_extension(path) {
            Some(ext) => FileFormat::from_extension(ext.as_str()),
            None => None,
        };
        match format {
            Some(f) => Ok(Self::new(path, f, is_required, max_parse_depth, reader)),
            None => Err(QuantumConfigError::UnsupportedFormat { path: String::from_str(path) }),
        }
    }

    /// What a missing file contributes: an empty dictionary where the file
    /// is optional, `SpecifiedFileNotFound` where it is required.
    pub fn missing_file_result(&self) -> (r: Result<ConfigValue, QuantumConfigError>)
        ensures
            !self.is_required ==> (r matches Ok(v) && v@ == Tree::Dict(Seq::empty())),
            self.is_required ==> (r matches Err(e) && e == (
            QuantumConfigError::SpecifiedFileNotFound { path: self.path })),
    {
        if self.is_required {
            Err(QuantumConfigError::SpecifiedFileNotFound { path: self.path.clone() })
        } else {
            Ok(ConfigValue::empty_dict())
        }
    }

    /// Converts one parsed JSON node, `depth` levels below the document's
    /// root: node for node, failing with the depth-limit error exactly where
    /// some node would lie deeper than `max_parse_depth`.
    pub fn convert_json_value_recursive(&self, value: &serde_json::Value, depth: u64) -> (r: Result<
        ConfigValue,
        QuantumConfigError,
    >)
        ensures
            r is Ok <==> doc_within(json_model(*value), self.max_parse_depth - depth),
            r matches Ok(v) ==> v@ == doc_tree(json_model(*value)) && tree_wf(v@),
            r matches Err(e) ==> e matches QuantumConfigError::Internal(m) && m@ == depth_message(
                self.path@,
            ),
        decreases self.max_parse_depth + 1 - depth,
    {
        if depth > self.max_parse_depth as u64 {
            return Err(depth_error(&self.path));
        }
        let ghost b = self.max_parse_depth - depth;
        let ghost d = json_model(*value);
        match json_node(value) {
            JsonNode::Null => Ok(ConfigValue::String(String::from_str("null"))),
            JsonNode::Bool(x) => Ok(ConfigValue::Bool(x)),
            JsonNode::Number(i, u, t) => match i {
                Some(x) => Ok(ConfigValue::Int(x)),
                None => match u {
                    Some(y) => Ok(ConfigValue::UInt(y)),
                    None => Ok(ConfigValue::Float(t)),
                },
            },
            JsonNode::Str(x) => Ok(ConfigValue::String(x)),
            JsonNode::Array(items) => {
                let ghost ms = json_models(items@);
                let mut out: Vec<ConfigValue> = Vec::new();
                let mut i: usize = 0;
                while i < items.len()
                    invariant
                        depth <= self.max_parse_depth,
                        b == self.max_parse_depth - depth,
                        ms == json_models(items@),
                        d == JsonModel::Array(ms),
                        d == json_model(*value),
                        i <= items.len(),
                        out@.len() == i,
                        forall|j: int|
                            0 <= j < i ==> (#[trigger] out@[j])@ == doc_tree(ms[j]) && tree_wf(
                                out@[j]@,
                            ) && doc_within(ms[j], b - 1),
                    decreases items.len() - i,
                {
                    match self.convert_json_value_recursive(&items[i], depth + 1) {
                        Ok(v) => out.push(v),
                        Err(e) => {
                            assert(ms[i as int] == json_model(items@[i as int]));
                            assert(ms.len() == items@.len());
                            assert(0 <= i < ms.len());
                            assert(!doc_within(ms[i as int], b - 1));
                            assert(d->Array_0[i as int] == ms[i as int]);
                            assert(!doc_within(d, b));
                            return Err(e);
                        },
                    }
                    i = i + 1;
                }
                proof {
                    lemma_array_view(out);
                    let tv = out@.map_values(|v: ConfigValue| v@);
                    assert(tv =~= doc_tree(d)->Array_0);
                    assert forall|j: int| 0 <= j < tv.len() implies tree_wf(#[trigger] tv[j]) by {
                        assert(tv[j] == out@[j]@);
                    }
                    assert forall|j: int| 0 <= j < ms.len() implies doc_within(
                        #[trigger] ms[j],
                        b - 1,
                    ) by {
                        assert(out@[j]@ == doc_tree(ms[j]));
                    }
                    assert(doc_within(d, b));
                }
                Ok(ConfigValue::Array(out))
            },
            JsonNode::Object(es) => {
                let ghost ms = json_entry_models(es@);
                let mut out: Vec<(String, ConfigValue)> = Vec::new();
                let mut i: usize = 0;
                while i < es.len()
                    invariant
                        depth <= self.max_parse_depth,
                        b == self.max_parse_depth - depth,
                        ms == json_entry_models(es@),
                        d == JsonModel::Object(ms),
                        d == json_model(*value),
                        i <= es.len(),
                        out@.len() == i,
                        forall|j: int|
                            0 <= j < i ==> (#[trigger] out@[j]).0@ == ms[j].0 && out@[j].1@
                                == doc_tree(ms[j].1) && tree_wf(out@[j].1@) && doc_within(
                                ms[j].1,
                                b - 1,
                            ),
                    decreases es.len() - i,
                {
                    match self.convert_json_value_recursive(&es[i].1, depth + 1) {
                        Ok(v) => out.push((es[i].0.clone(), v)),
                        Err(e) => {
                            assert(ms[i as int].1 == json_model(es@[i as int].1));
                            assert(ms.len() == es@.len());
                            assert(0 <= i < ms.len());
                            assert(!doc_within(ms[i as int].1, b - 1));
                            assert(d->Object_0[i as int] == ms[i as int]);
                            assert(!doc_within(d, b));
                            return Err(e);
                        },
                    }
                    i = i + 1;
                }
                proof {
                    lemma_dict_view(out);
                    let ev = entries_view(out@);
                    assert(ev =~= doc_tree(d)->Dict_0);
                    assert forall|x: int, y: int|
                        0 <= x < ev.len() && 0 <= y < ev.len() && #[trigger] ev[x].0
                            == #[trigger] ev[y].0 implies x == y by {
                        assert(ev[x].0 == es@[x].0@ && ev[y].0 == es@[y].0@);
                    }
                    assert forall|j: int| 0 <= j < ev.len() implies tree_wf(#[trigger] ev[j].1) by {
                        assert(ev[j].1 == out@[j].1@);
                    }
                    assert forall|j: int| 0 <= j < ms.len() implies doc_within(
                        #[trigger] ms[j].1,
                        b - 1,
                    ) by {
                        assert(out@[j].0@ == ms[j].0);
                    }
                    assert(doc_within(d, b));
                }
                Ok(ConfigValue::Dict(out))
            },
        }
    }

    fn parse_error(&self, format_name: &str, message: String) -> (e: QuantumConfigError)
        ensures
            e matches QuantumConfigError::FileParse { format_name: f, path: p, .. } && f@
                == format_name@ && p == self.path,
    {
        QuantumConfigError::FileParse {
            format_name: String::from_str(format_name),
            path: self.path.clone(),
            source_error: message,
        }
    }

    /// What parsing yields from the document `doc` that the format's parser
    /// read (`None` where it refused the text): the mirrored tree where the
    /// document fits the depth limit, the depth-limit error where it does
    /// not, a parse error naming the format where there is no document.
    pub open spec fn doc_outcome(
        &self,
        doc: Option<JsonModel>,
        format_name: Seq<char>,
        r: Result<ConfigValue, QuantumConfigError>,
    ) -> bool {
        match doc {
            None => r matches Err(e) && e matches QuantumConfigError::FileParse {
                format_name: f,
                path: p,
                ..
            } && f@ == format_name && p == self.path,
            Some(d) => match r {
                Ok(v) => doc_within(d, self.max_parse_depth as int) && v@ == doc_tree(d) && tree_wf(
                    v@,
                ),
                Err(e) => !doc_within(d, self.max_parse_depth as int) && (e matches QuantumConfigError::Internal(
                    m,
                ) && m@ == depth_message(self.path@)),
            },
        }
    }

    /// What parsing `content` as JSON yields: text nested deeper than
    /// `MAX_JSON_NESTING` gets the depth-limit error before any parsing.
    pub open spec fn json_outcome(&self, content: Seq<char>, r: Result<ConfigValue, QuantumConfigError>) -> bool {
        if json_nesting(content) > MAX_JSON_NESTING {
            r matches Err(e) && e matches QuantumConfigError::Internal(m) && m@ == depth_message(
                self.path@,
            )
        } else {
            self.doc_outcome(json_doc_of(content), "JSON"@, r)
        }
    }

    /// What parsing `content` as INI yields.
    pub open spec fn ini_outcome(&self, content: Seq<char>, r: Result<ConfigValue, QuantumConfigError>) -> bool {
        match ini_sections_of(content) {
            None => r matches Err(e) && e matches QuantumConfigError::FileParse {
                format_name: f,
                path: p,
                ..
            } && f@ == "INI"@ && p == self.path,
            Some(secs) => match r {
                Ok(v) => ini_tree(secs) == Some(v@) && tree_wf(v@),
                Err(e) => ini_tree(secs) is None && e is Internal,
            },
        }
    }

    /// What parsing `content` in the provider's format yields.
    pub open spec fn content_outcome(&self, content: Seq<char>, r: Result<ConfigValue, QuantumConfigError>) -> bool {
        match self.format {
            FileFormat::Toml => self.doc_outcome(toml_doc_of(content), "TOML"@, r),
            FileFormat::Json => self.json_outcome(content, r),
            FileFormat::Ini => self.ini_outcome(content, r),
        }
    }

    /// Parses `content` as TOML and converts it, type for type.
    pub fn parse_toml(&self, content: &str) -> (r: Result<ConfigValue, QuantumConfigError>)
        ensures
            self.doc_outcome(toml_doc_of(content@), "TOML"@, r),
    {
        match toml_parse(content) {
            Ok(v) => self.convert_json_value_recursive(&v, 0),
            Err(m) => Err(self.parse_error("TOML", m)),
        }
    }

    /// Parses `content` as JSON and converts it, type for type.
    pub fn parse_json(&self, content: &str) -> (r: Result<ConfigValue, QuantumConfigError>)
        ensures
            self.json_outcome(content@, r),
    {
        if json_nesting_exceeds(content, MAX_JSON_NESTING) {
            return Err(depth_error(&self.path));
        }
        match json_parse(content) {
            Ok(v) => self.convert_json_value_recursive(&v, 0),
            Err(m) => Err(self.parse_error("JSON", m)),
        }
    }

    /// Parses `content` as INI and builds its tree.
    pub fn parse_ini(&self, content: &str) -> (r: Result<ConfigValue, QuantumConfigError>)
        ensures
            self.ini_outcome(content@, r),
    {
        match ini_parse(content) {
            Ok(sections) => ini_to_tree(&sections),
            Err(m) => Err(self.parse_error("INI", m)),
        }
    }

    /// Parses `content` in the provider's format.
    pub fn parse_content(&self, content: &str) -> (r: Result<ConfigValue, QuantumConfigError>)
        ensures
            self.content_outcome(content@, r),
    {
        match self.format {
            FileFormat::Toml => self.parse_toml(content),
            FileFormat::Json => self.parse_json(content),
            FileFormat::Ini => self.parse_ini(content),
        }
    }

    /// What the reader's answer `read` gives: its text parsed as is, or its
    /// error unchanged.
    pub fn parse_read_result(&self, read: Result<String, QuantumConfigError>) -> (r: Result<
        ConfigValue,
        QuantumConfigError,
    >)
        ensures
            match read {
                Ok(s) => self.content_outcome(s@, r),
                Err(e) => r == Err::<ConfigValue, QuantumConfigError>(e),
            },
    {
        match read {
            Ok(content) => self.parse_content(content.as_str()),
            Err(e) => Err(e),
        }
    }

    /// Reads and parses the file at the provider's path. Where the reader
    /// reports no file there, the result is `missing_file_result`'s;
    /// otherwise it is `parse_read_result` of what the reader gives for that
    /// path.
    pub fn read_and_parse(&self) -> (r: Result<ConfigValue, QuantumConfigError>)
        ensures
            r matches Ok(v) ==> tree_wf(v@),
            r matches Ok(v) ==> (!self.is_required && v@ == Tree::Dict(Seq::empty())) || exists|
                s: Seq<char>,
            | #[trigger] self.content_outcome(s, r),
    {
        if !self.reader.file_exists(self.path.as_str()) {
            return self.missing_file_result();
        }
        let read = self.reader.read_content(self.path.as_str());
        let ghost rd = read;
        let r = self.parse_read_result(read);
        proof {
            if let Ok(text) = rd {
                assert(self.content_outcome(text@, r));
            }
        }
        r
    }
}

} // verus!
