//! Metadata that describes a configuration structure at run time: the
//! application, its fields, and how each field is named in files, in the
//! environment and on the command line.

use vstd::prelude::*;
use vstd::string::*;

verus! {

/// Application-wide settings.
#[derive(Debug, Clone, PartialEq, Eq)]
pub struct QuantumConfigAppMeta {
    /// Name of the application, used to find its configuration files.
    pub app_name: String,
    /// Prefix of the environment variables that configure it.
    pub env_prefix: Option<String>,
    /// Version of the loading behaviour.
    pub behavior_version: u32,
    /// Deepest nesting accepted when parsing a configuration file.
    pub max_parse_depth: u32,
}

impl Default for QuantumConfigAppMeta {
    fn default() -> (r: Self)
        ensures
            r.app_name@ == "app"@,
            r.env_prefix is None,
            r.behavior_version == 1,
            r.max_parse_depth == 128,
    {
        QuantumConfigAppMeta {
            app_name: String::from_str("app"),
            env_prefix: None,
            behavior_version: 1,
            max_parse_depth: 128,
        }
    }
}

/// Command-line attributes given to a field directly.
#[derive(Debug, Clone, PartialEq, Eq)]
pub struct ClapAttrsMeta {
    pub long: Option<String>,
    pub short: Option<char>,
    pub help: Option<String>,
    /// The argument action, as source text.
    pub action_code: Option<String>,
    /// The value parser, as source text.
    pub value_parser_code: Option<String>,
}

/// Metadata of one field.
#[derive(Debug, Clone, PartialEq, Eq)]
pub struct FieldMeta {
    /// Name of the field in the structure.
    pub rust_name: &'static str,
    /// Key used in configuration files, where it differs from the name.
    pub config_name_override: Option<&'static str>,
    /// Environment variable name (without prefix), where it differs.
    pub env_name_override: Option<&'static str>,
    /// Long option name, where it differs.
    pub clap_long_override: Option<&'static str>,
    pub clap_short_override: Option<char>,
    pub description: Option<&'static str>,
    /// Path of the function that gives the default value.
    pub default_fn_path_str: Option<&'static str>,
    /// The field's type, as source text.
    pub type_name_str: &'static str,
    pub is_option: bool,
    pub is_flatten: bool,
    pub is_skipped: bool,
    pub clap_direct_attrs_meta: Option<ClapAttrsMeta>,
}

impl FieldMeta {
    /// A field with the given name and type and no overrides.
    pub fn new(rust_name: &'static str, type_name_str: &'static str) -> (r: Self)
        ensures
            r.rust_name == rust_name,
            r.type_name_str == type_name_str,
            r.config_name_override is None,
            r.env_name_override is None,
            r.clap_long_override is None,
            r.clap_short_override is None,
            r.description is None,
            r.default_fn_path_str is None,
            !r.is_option,
            !r.is_flatten,
            !r.is_skipped,
            r.clap_direct_attrs_meta is None,
    {
        FieldMeta {
            rust_name,
            config_name_override: None,
            env_name_override: None,
            clap_long_override: None,
            clap_short_override: None,
            description: None,
            default_fn_path_str: None,
            type_name_str,
            is_option: false,
            is_flatten: false,
            is_skipped: false,
            clap_direct_attrs_meta: None,
        }
    }

    /// The key used in configuration files.
    pub fn config_key_name(&self) -> (r: &str)
        ensures
            r == match self.config_name_override {
                Some(n) => n,
                None => self.rust_name,
            },
    {
        match self.config_name_override {
            Some(n) => n,
            None => self.rust_name,
        }
    }

    /// The environment variable name, without prefix.
    pub fn env_var_name(&self) -> (r: &str)
        ensures
            r == match self.env_name_override {
                Some(n) => n,
                None => self.rust_name,
            },
    {
        match self.env_name_override {
            Some(n) => n,
            None => self.rust_name,
        }
    }

    /// The long option name.
    pub fn clap_long_name(&self) -> (r: &str)
        ensures
            r == match self.clap_long_override {
                Some(n) => n,
                None => self.rust_name,
            },
    {
        match self.clap_long_override {
            Some(n) => n,
            None => self.rust_name,
        }
    }
}

/// Metadata of one configuration structure.
#[derive(Debug, Clone, PartialEq, Eq)]
pub struct StructMeta {
    pub struct_name: &'static str,
    /// The fields, in declaration order.
    pub fields: Vec<FieldMeta>,
    /// Whether this is the structure the application loads.
    pub is_top_level_config: bool,
    /// For each field that is itself a configuration structure, its name
    /// and that structure's metadata.
    pub nested_struct_meta_map: Vec<(&'static str, &'static StructMeta)>,
}

impl StructMeta {
    pub fn new(struct_name: &'static str, is_top_level_config: bool) -> (r: Self)
        ensures
            r.struct_name == struct_name,
            r.is_top_level_config == is_top_level_config,
            r.fields@.len() == 0,
            r.nested_struct_meta_map@.len() == 0,
    {
        StructMeta {
            struct_name,
            fields: Vec::new(),
            is_top_level_config,
            nested_struct_meta_map: Vec::new(),
        }
    }

    /// Appends a field.
    pub fn add_field(&mut self, field: FieldMeta)
        ensures
            final(self).fields@ == old(self).fields@.push(field),
            final(self).struct_name == old(self).struct_name,
            final(self).is_top_level_config == old(self).is_top_level_config,
            final(self).nested_struct_meta_map == old(self).nested_struct_meta_map,
    {
        self.fields.push(field);
    }

    /// Records the metadata of the nested structure held by field
    /// `field_name`, replacing an earlier record for that field.
    pub fn add_nested_struct(&mut self, field_name: &'static str, nested_meta: &'static StructMeta)
        ensures
            final(self).fields == old(self).fields,
            final(self).struct_name == old(self).struct_name,
            final(self).is_top_level_config == old(self).is_top_level_config,
            forall|i: int|
                0 <= i < old(self).nested_struct_meta_map@.len() && #[trigger] old(
                    self,
                ).nested_struct_meta_map@[i].0@ == field_name@ && (forall|j: int|
                    0 <= j < i ==> old(self).nested_struct_meta_map@[j].0@ != field_name@)
                    ==> final(self).nested_struct_meta_map@ == old(
                    self,
                ).nested_struct_meta_map@.update(i, (old(self).nested_struct_meta_map@[i].0, nested_meta)),
            (forall|i: int|
                0 <= i < old(self).nested_struct_meta_map@.len()
                    ==> old(self).nested_struct_meta_map@[i].0@ != field_name@)
                ==> final(self).nested_struct_meta_map@ == old(self).nested_struct_meta_map@.push(
                (field_name, nested_meta),
            ),
    {
        let mut i: usize = 0;
        while i < self.nested_struct_meta_map.len()
            invariant
                i <= self.nested_struct_meta_map@.len(),
                self == old(self),
                forall|j: int| 0 <= j < i ==> self.nested_struct_meta_map@[j].0@ != field_name@,
            decreases self.nested_struct_meta_map@.len() - i,
        {
            if str_eq(self.nested_struct_meta_map[i].0, field_name) {
                let name = self.nested_struct_meta_map[i].0;
                self.nested_struct_meta_map.set(i, (name, nested_meta));
                return;
            }
            i = i + 1;
        }
        self.nested_struct_meta_map.push((field_name, nested_meta));
    }

    /// The metadata of the nested structure held by field `field_name`.
    pub fn nested_struct(&self, field_name: &str) -> (r: Option<&'static StructMeta>)
        ensures
            match r {
                Some(m) => exists|i: int|
                    0 <= i < self.nested_struct_meta_map@.len()
                        && #[trigger] self.nested_struct_meta_map@[i] == (
                        self.nested_struct_meta_map@[i].0,
                        m,
                    ) && self.nested_struct_meta_map@[i].0@ == field_name@,
                None => forall|i: int|
                    0 <= i < self.nested_struct_meta_map@.len()
                        ==> self.nested_struct_meta_map@[i].0@ != field_name@,
            },
    {
        let mut i: usize = 0;
        while i < self.nested_struct_meta_map.len()
            invariant
                i <= self.nested_struct_meta_map@.len(),
                forall|j: int| 0 <= j < i ==> self.nested_struct_meta_map@[j].0@ != field_name@,
            decreases self.nested_struct_meta_map@.len() - i,
        {
            if str_eq(self.nested_struct_meta_map[i].0, field_name) {
                return Some(self.nested_struct_meta_map[i].1);
            }
            i = i + 1;
        }
        None
    }

    /// The first field named `field_name`.
    pub fn find_field(&self, field_name: &str) -> (r: Option<&FieldMeta>)
        ensures
            match r {
                Some(f) => exists|i: int|
                    0 <= i < self.fields@.len() && #[trigger] self.fields@[i] == *f
                        && f.rust_name@ == field_name@ && forall|j: int|
                        0 <= j < i ==> self.fields@[j].rust_name@ != field_name@,
                None => forall|i: int|
                    0 <= i < self.fields@.len() ==> self.fields@[i].rust_name@ != field_name@,
            },
    {
        let mut i: usize = 0;
        while i < self.fields.len()
            invariant
                i <= self.fields@.len(),
                forall|j: int| 0 <= j < i ==> self.fields@[j].rust_name@ != field_name@,
            decreases self.fields@.len() - i,
        {
            if str_eq(self.fields[i].rust_name, field_name) {
                return Some(&self.fields[i]);
            }
            i = i + 1;
        }
        None
    }

    /// The fields that are not skipped, in order.
    pub fn non_skipped_fields(&self) -> (r: Vec<&FieldMeta>)
        ensures
            r@.map_values(|f: &FieldMeta| *f) == self.fields@.filter(|f: FieldMeta| !f.is_skipped),
    {
        let mut r: Vec<&FieldMeta> = Vec::new();
        let mut i: usize = 0;
        proof {
            reveal(Seq::filter);
        }
        while i < self.fields.len()
            invariant
                i <= self.fields@.len(),
                r@.map_values(|f: &FieldMeta| *f) == self.fields@.subrange(0, i as int).filter(
                    |f: FieldMeta| !f.is_skipped,
                ),
            decreases self.fields@.len() - i,
        {
            assert(self.fields@.subrange(0, i + 1).drop_last() =~= self.fields@.subrange(
                0,
                i as int,
            ));
            if !self.fields[i].is_skipped {
                r.push(&self.fields[i]);
            }
            i = i + 1;
            proof {
                reveal(Seq::filter);
            }
            assert(r@.map_values(|f: &FieldMeta| *f) =~= self.fields@.subrange(0, i as int).filter(
                |f: FieldMeta| !f.is_skipped,
            ));
        }
        assert(self.fields@.subrange(0, i as int) =~= self.fields@);
        r
    }

    /// The flattened fields, in order.
    pub fn flattened_fields(&self) -> (r: Vec<&FieldMeta>)
        ensures
            r@.map_values(|f: &FieldMeta| *f) == self.fields@.filter(|f: FieldMeta| f.is_flatten),
    {
        let mut r: Vec<&FieldMeta> = Vec::new();
        let mut i: usize = 0;
        proof {
            reveal(Seq::filter);
        }
        while i < self.fields.len()
            invariant
                i <= self.fields@.len(),
                r@.map_values(|f: &FieldMeta| *f) == self.fields@.subrange(0, i as int).filter(
                    |f: FieldMeta| f.is_flatten,
                ),
            decreases self.fields@.len() - i,
        {
            assert(self.fields@.subrange(0, i + 1).drop_last() =~= self.fields@.subrange(
                0,
                i as int,
            ));
            if self.fields[i].is_flatten {
                r.push(&self.fields[i]);
            }
            i = i + 1;
            proof {
                reveal(Seq::filter);
            }
            assert(r@.map_values(|f: &FieldMeta| *f) =~= self.fields@.subrange(0, i as int).filter(
                |f: FieldMeta| f.is_flatten,
            ));
        }
        assert(self.fields@.subrange(0, i as int) =~= self.fields@);
        r
    }
}

/// Whether two strings hold the same characters.
pub fn str_eq(a: &str, b: &str) -> (r: bool)
    ensures
        r == (a@ == b@),
{
    let x = crate::coerce::chars_of(a);
    let y = crate::coerce::chars_of(b);
    if x.len() != y.len() {
        return false;
    }
    let mut i: usize = 0;
    while i < x.len()
        invariant
            x@ == a@,
            y@ == b@,
            x.len() == y.len(),
            i <= x.len(),
            forall|j: int| 0 <= j < i ==> x@[j] == y@[j],
        decreases x.len() - i,
    {
        if x[i] != y[i] {
            return false;
        }
        i = i + 1;
    }
    assert(x@ =~= y@);
    true
}

} // verus!
