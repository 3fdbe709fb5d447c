//! Completion metadata for the built-in attributes.
use vstd::prelude::*;
use vstd::string::*;

verus! {

/// One completion entry for a built-in attribute.
#[derive(Clone, Copy, Debug)]
pub struct AttrCompletion {
    pub label: &'static str,
    pub lookup: Option<&'static str>,
    pub snippet: Option<&'static str>,
    pub prefer_inner: bool,
}

impl AttrCompletion {
    /// The text the entry is looked up and ordered by: `lookup` when present,
    /// else `label`.
    pub fn key(&self) -> (r: &'static str)
        ensures
            r == (match self.lookup {
                Some(l) => l,
                None => self.label,
            }),
    {
        match self.lookup {
            Some(l) => l,
            None => self.label,
        }
    }

    /// The same entry, marked as preferring the inner attribute position.
    pub fn prefer_inner(self) -> (r: AttrCompletion)
        ensures
            r.label == self.label,
            r.lookup == self.lookup,
            r.snippet == self.snippet,
            r.prefer_inner,
    {
        AttrCompletion { prefer_inner: true, ..self }
    }
}

/// A plain entry that does not prefer the inner position.
pub fn attr(
    label: &'static str,
    lookup: Option<&'static str>,
    snippet: Option<&'static str>,
) -> (r: AttrCompletion)
    ensures
        r.label == label,
        r.lookup == lookup,
        r.snippet == snippet,
        !r.prefer_inner,
{
    AttrCompletion { label, lookup, snippet, prefer_inner: false }
}

/// The built-in attributes, ordered by `key`.
pub fn attributes() -> (r: Vec<AttrCompletion>)
    ensures
        r@.len() > 0,
{
    vec![
    attr("allow(…)", Some("allow"), Some("allow(${0:lint})")),
    attr("automatically_derived", None, None),
    attr("cfg(…)", Some("cfg"), Some("cfg(${0:predicate})")),
    attr("cfg_attr(…)", Some("cfg_attr"), Some("cfg_attr(${1:predicate}, ${0:attr})")),
    attr("cold", None, None),
    attr(r#"crate_name = """#, Some("crate_name"), Some(r#"crate_name = "${0:crate_name}""#))
        .prefer_inner(),
    attr("deny(…)", Some("deny"), Some("deny(${0:lint})")),
    attr(r#"deprecated"#, Some("deprecated"), Some(r#"deprecated"#)),
    attr("derive(…)", Some("derive"), Some(r#"derive(${0:Debug})"#)),
    attr(r#"doc = "…""#, Some("doc"), Some(r#"doc = "${0:docs}""#)),
    attr(r#"doc(alias = "…")"#, Some("docalias"), Some(r#"doc(alias = "${0:docs}")"#)),
    attr(r#"doc(hidden)"#, Some("dochidden"), Some(r#"doc(hidden)"#)),
    attr(
        r#"export_name = "…""#,
        Some("export_name"),
        Some(r#"export_name = "${0:exported_symbol_name}""#),
    ),
    attr("feature(…)", Some("feature"), Some("feature(${0:flag})")).prefer_inner(),
    attr("forbid(…)", Some("forbid"), Some("forbid(${0:lint})")),
    attr("global_allocator", None, None),
    attr(r#"ignore = "…""#, Some("ignore"), Some(r#"ignore = "${0:reason}""#)),
    attr("inline", Some("inline"), Some("inline")),
    attr("link", None, None),
    attr(r#"link_name = "…""#, Some("link_name"), Some(r#"link_name = "${0:symbol_name}""#)),
    attr(
        r#"link_section = "…""#,
        Some("link_section"),
        Some(r#"link_section = "${0:section_name}""#),
    ),
    attr("macro_export", None, None),
    attr("macro_use", None, None),
    attr(r#"must_use"#, Some("must_use"), Some(r#"must_use"#)),
    attr("no_implicit_prelude", None, None).prefer_inner(),
    attr("no_link", None, None).prefer_inner(),
    attr("no_main", None, None).prefer_inner(),
    attr("no_mangle", None, None),
    attr("no_std", None, None).prefer_inner(),
    attr("non_exhaustive", None, None),
    attr("panic_handler", None, None),
    attr(r#"path = "…""#, Some("path"), Some(r#"path ="${0:path}""#)),
    attr("proc_macro", None, None),
    attr("proc_macro_attribute", None, None),
    attr("proc_macro_derive(…)", Some("proc_macro_derive"), Some("proc_macro_derive(${0:Trait})")),
    attr(
        r#"recursion_limit = "…""#,
        Some("recursion_limit"),
        Some(r#"recursion_limit = "${0:128}""#),
    )
    .prefer_inner(),
    attr("repr(…)", Some("repr"), Some("repr(${0:C})")),
    attr("should_panic", Some("should_panic"), Some(r#"should_panic"#)),
    attr(
        r#"target_feature = "…""#,
        Some("target_feature"),
        Some(r#"target_feature = "${0:feature}""#),
    ),
    attr("test", None, None),
    attr("track_caller", None, None),
    attr("type_length_limit = …", Some("type_length_limit"), Some("type_length_limit = ${0:128}"))
        .prefer_inner(),
    attr("used", None, None),
    attr("warn(…)", Some("warn"), Some("warn(${0:lint})")),
    attr(
        r#"windows_subsystem = "…""#,
        Some("windows_subsystem"),
        Some(r#"windows_subsystem = "${0:subsystem}""#),
    )
    .prefer_inner(),
    ]
}

/// The kinds of syntax that an attribute can annotate and that have a list
/// of attributes of their own.
#[derive(Clone, Copy, Debug, PartialEq, Eq, Structural)]
pub enum AttrTarget {
    SourceFile,
    Module,
    ItemList,
    MacroRules,
    MacroDef,
    ExternCrate,
    Use,
    TypeAlias,
    Struct,
    Enum,
    Union,
    Const,
    Fn,
    Static,
    Trait,
    Impl,
    AssocItemList,
    ExternBlock,
    ExternItemList,
    MacroCall,
    SelfParam,
    Param,
    RecordField,
    Variant,
    TypeParam,
    ConstParam,
    LifetimeParam,
    LetStmt,
    ExprStmt,
    Literal,
    RecordExprFieldList,
    RecordExprField,
    MatchArmList,
    MatchArm,
    IdentPat,
    RecordPatField,
    /// Any expression.
    Expr,
}

/// The keys of the attributes that apply to `target`: the six universal
/// ones, then those of its kind.
pub open spec fn attributes_for(target: AttrTarget) -> Seq<&'static str> {
    match target {
        AttrTarget::SourceFile => seq![
            "allow", "cfg", "cfg_attr", "deny", "forbid", "warn", "deprecated", "doc", "dochidden",
            "docalias", "must_use", "no_mangle", "crate_name", "feature", "no_implicit_prelude",
            "no_main", "no_std", "recursion_limit", "type_length_limit", "windows_subsystem",
        ],
        AttrTarget::Module => seq![
            "allow", "cfg", "cfg_attr", "deny", "forbid", "warn", "deprecated", "doc", "dochidden",
            "docalias", "must_use", "no_mangle", "macro_use", "no_implicit_prelude", "path",
        ],
        AttrTarget::ItemList => seq![
            "allow", "cfg", "cfg_attr", "deny", "forbid", "warn", "deprecated", "doc", "dochidden",
            "docalias", "must_use", "no_mangle", "no_implicit_prelude",
        ],
        AttrTarget::MacroRules => seq![
            "allow", "cfg", "cfg_attr", "deny", "forbid", "warn", "deprecated", "doc", "dochidden",
            "docalias", "must_use", "no_mangle", "macro_export", "macro_use",
        ],
        AttrTarget::MacroDef => seq![
            "allow", "cfg", "cfg_attr", "deny", "forbid", "warn", "deprecated", "doc", "dochidden",
            "docalias", "must_use", "no_mangle",
        ],
        AttrTarget::ExternCrate => seq![
            "allow", "cfg", "cfg_attr", "deny", "forbid", "warn", "deprecated", "doc", "dochidden",
            "docalias", "must_use", "no_mangle", "macro_use", "no_link",
        ],
        AttrTarget::Use => seq![
            "allow", "cfg", "cfg_attr", "deny", "forbid", "warn", "deprecated", "doc", "dochidden",
            "docalias", "must_use", "no_mangle",
        ],
        AttrTarget::TypeAlias => seq![
            "allow", "cfg", "cfg_attr", "deny", "forbid", "warn", "deprecated", "doc", "dochidden",
            "docalias", "must_use", "no_mangle",
        ],
        AttrTarget::Struct => seq![
            "allow", "cfg", "cfg_attr", "deny", "forbid", "warn", "deprecated", "doc", "dochidden",
            "docalias", "must_use", "no_mangle", "derive", "repr", "non_exhaustive",
        ],
        AttrTarget::Enum => seq![
            "allow", "cfg", "cfg_attr", "deny", "forbid", "warn", "deprecated", "doc", "dochidden",
            "docalias", "must_use", "no_mangle", "derive", "repr", "non_exhaustive",
        ],
        AttrTarget::Union => seq![
            "allow", "cfg", "cfg_attr", "deny", "forbid", "warn", "deprecated", "doc", "dochidden",
            "docalias", "must_use", "no_mangle", "derive", "repr",
        ],
        AttrTarget::Const => seq![
            "allow", "cfg", "cfg_attr", "deny", "forbid", "warn", "deprecated", "doc", "dochidden",
            "docalias", "must_use", "no_mangle",
        ],
        AttrTarget::Fn => seq![
            "allow", "cfg", "cfg_attr", "deny", "forbid", "warn", "deprecated", "doc", "dochidden",
            "docalias", "must_use", "no_mangle", "export_name", "link_name", "link_section",
            "cold", "ignore", "inline", "must_use", "panic_handler", "proc_macro",
            "proc_macro_derive", "proc_macro_attribute", "should_panic", "target_feature", "test",
            "track_caller",
        ],
        AttrTarget::Static => seq![
            "allow", "cfg", "cfg_attr", "deny", "forbid", "warn", "deprecated", "doc", "dochidden",
            "docalias", "must_use", "no_mangle", "export_name", "link_name", "link_section",
            "global_allocator", "used",
        ],
        AttrTarget::Trait => seq![
            "allow", "cfg", "cfg_attr", "deny", "forbid", "warn", "deprecated", "doc", "dochidden",
            "docalias", "must_use", "no_mangle", "must_use",
        ],
        AttrTarget::Impl => seq![
            "allow", "cfg", "cfg_attr", "deny", "forbid", "warn", "deprecated", "doc", "dochidden",
            "docalias", "must_use", "no_mangle", "automatically_derived",
        ],
        AttrTarget::AssocItemList => seq![
            "allow", "cfg", "cfg_attr", "deny", "forbid", "warn", "deprecated", "doc", "dochidden",
            "docalias", "must_use", "no_mangle",
        ],
        AttrTarget::ExternBlock => seq![
            "allow", "cfg", "cfg_attr", "deny", "forbid", "warn", "deprecated", "doc", "dochidden",
            "docalias", "must_use", "no_mangle", "link",
        ],
        AttrTarget::ExternItemList => seq![
            "allow", "cfg", "cfg_attr", "deny", "forbid", "warn", "deprecated", "doc", "dochidden",
            "docalias", "must_use", "no_mangle", "link",
        ],
        AttrTarget::MacroCall => seq!["allow", "cfg", "cfg_attr", "deny", "forbid", "warn"],
        AttrTarget::SelfParam => seq!["allow", "cfg", "cfg_attr", "deny", "forbid", "warn"],
        AttrTarget::Param => seq!["allow", "cfg", "cfg_attr", "deny", "forbid", "warn"],
        AttrTarget::RecordField => seq!["allow", "cfg", "cfg_attr", "deny", "forbid", "warn"],
        AttrTarget::Variant => seq![
            "allow", "cfg", "cfg_attr", "deny", "forbid", "warn", "non_exhaustive",
        ],
        AttrTarget::TypeParam => seq!["allow", "cfg", "cfg_attr", "deny", "forbid", "warn"],
        AttrTarget::ConstParam => seq!["allow", "cfg", "cfg_attr", "deny", "forbid", "warn"],
        AttrTarget::LifetimeParam => seq!["allow", "cfg", "cfg_attr", "deny", "forbid", "warn"],
        AttrTarget::LetStmt => seq!["allow", "cfg", "cfg_attr", "deny", "forbid", "warn"],
        AttrTarget::ExprStmt => seq!["allow", "cfg", "cfg_attr", "deny", "forbid", "warn"],
        AttrTarget::Literal => seq!["allow", "cfg", "cfg_attr", "deny", "forbid", "warn"],
        AttrTarget::RecordExprFieldList => seq![
            "allow", "cfg", "cfg_attr", "deny", "forbid", "warn",
        ],
        AttrTarget::RecordExprField => seq!["allow", "cfg", "cfg_attr", "deny", "forbid", "warn"],
        AttrTarget::MatchArmList => seq!["allow", "cfg", "cfg_attr", "deny", "forbid", "warn"],
        AttrTarget::MatchArm => seq!["allow", "cfg", "cfg_attr", "deny", "forbid", "warn"],
        AttrTarget::IdentPat => seq!["allow", "cfg", "cfg_attr", "deny", "forbid", "warn"],
        AttrTarget::RecordPatField => seq!["allow", "cfg", "cfg_attr", "deny", "forbid", "warn"],
        AttrTarget::Expr => seq!["allow", "cfg", "cfg_attr", "deny", "forbid", "warn"],
    }
}

/// The attributes that apply to `target`, by key.
pub fn applicable_attributes(target: AttrTarget) -> (r: Vec<&'static str>)
    ensures
        r@ == attributes_for(target),
{
    match target {
        AttrTarget::SourceFile => vec![
            "allow", "cfg", "cfg_attr", "deny", "forbid", "warn", "deprecated", "doc", "dochidden",
            "docalias", "must_use", "no_mangle", "crate_name", "feature", "no_implicit_prelude",
            "no_main", "no_std", "recursion_limit", "type_length_limit", "windows_subsystem",
        ],
        AttrTarget::Module => vec![
            "allow", "cfg", "cfg_attr", "deny", "forbid", "warn", "deprecated", "doc", "dochidden",
            "docalias", "must_use", "no_mangle", "macro_use", "no_implicit_prelude", "path",
        ],
        AttrTarget::ItemList => vec![
            "allow", "cfg", "cfg_attr", "deny", "forbid", "warn", "deprecated", "doc", "dochidden",
            "docalias", "must_use", "no_mangle", "no_implicit_prelude",
        ],
        AttrTarget::MacroRules => vec![
            "allow", "cfg", "cfg_attr", "deny", "forbid", "warn", "deprecated", "doc", "dochidden",
            "docalias", "must_use", "no_mangle", "macro_export", "macro_use",
        ],
        AttrTarget::MacroDef => vec![
            "allow", "cfg", "cfg_attr", "deny", "forbid", "warn", "deprecated", "doc", "dochidden",
            "docalias", "must_use", "no_mangle",
        ],
        AttrTarget::ExternCrate => vec![
            "allow", "cfg", "cfg_attr", "deny", "forbid", "warn", "deprecated", "doc", "dochidden",
            "docalias", "must_use", "no_mangle", "macro_use", "no_link",
        ],
        AttrTarget::Use => vec![
            "allow", "cfg", "cfg_attr", "deny", "forbid", "warn", "deprecated", "doc", "dochidden",
            "docalias", "must_use", "no_mangle",
        ],
        AttrTarget::TypeAlias => vec![
            "allow", "cfg", "cfg_attr", "deny", "forbid", "warn", "deprecated", "doc", "dochidden",
            "docalias", "must_use", "no_mangle",
        ],
        AttrTarget::Struct => vec![
            "allow", "cfg", "cfg_attr", "deny", "forbid", "warn", "deprecated", "doc", "dochidden",
            "docalias", "must_use", "no_mangle", "derive", "repr", "non_exhaustive",
        ],
        AttrTarget::Enum => vec![
            "allow", "cfg", "cfg_attr", "deny", "forbid", "warn", "deprecated", "doc", "dochidden",
            "docalias", "must_use", "no_mangle", "derive", "repr", "non_exhaustive",
        ],
        AttrTarget::Union => vec![
            "allow", "cfg", "cfg_attr", "deny", "forbid", "warn", "deprecated", "doc", "dochidden",
            "docalias", "must_use", "no_mangle", "derive", "repr",
        ],
        AttrTarget::Const => vec![
            "allow", "cfg", "cfg_attr", "deny", "forbid", "warn", "deprecated", "doc", "dochidden",
            "docalias", "must_use", "no_mangle",
        ],
        AttrTarget::Fn => vec![
            "allow", "cfg", "cfg_attr", "deny", "forbid", "warn", "deprecated", "doc", "dochidden",
            "docalias", "must_use", "no_mangle", "export_name", "link_name", "link_section",
            "cold", "ignore", "inline", "must_use", "panic_handler", "proc_macro",
            "proc_macro_derive", "proc_macro_attribute", "should_panic", "target_feature", "test",
            "track_caller",
        ],
        AttrTarget::Static => vec![
            "allow", "cfg", "cfg_attr", "deny", "forbid", "warn", "deprecated", "doc", "dochidden",
            "docalias", "must_use", "no_mangle", "export_name", "link_name", "link_section",
            "global_allocator", "used",
        ],
        AttrTarget::Trait => vec![
            "allow", "cfg", "cfg_attr", "deny", "forbid", "warn", "deprecated", "doc", "dochidden",
            "docalias", "must_use", "no_mangle", "must_use",
        ],
        AttrTarget::Impl => vec![
            "allow", "cfg", "cfg_attr", "deny", "forbid", "warn", "deprecated", "doc", "dochidden",
            "docalias", "must_use", "no_mangle", "automatically_derived",
        ],
        AttrTarget::AssocItemList => vec![
            "allow", "cfg", "cfg_attr", "deny", "forbid", "warn", "deprecated", "doc", "dochidden",
            "docalias", "must_use", "no_mangle",
        ],
        AttrTarget::ExternBlock => vec![
            "allow", "cfg", "cfg_attr", "deny", "forbid", "warn", "deprecated", "doc", "dochidden",
            "docalias", "must_use", "no_mangle", "link",
        ],
        AttrTarget::ExternItemList => vec![
            "allow", "cfg", "cfg_attr", "deny", "forbid", "warn", "deprecated", "doc", "dochidden",
            "docalias", "must_use", "no_mangle", "link",
        ],
        AttrTarget::MacroCall => vec!["allow", "cfg", "cfg_attr", "deny", "forbid", "warn"],
        AttrTarget::SelfParam => vec!["allow", "cfg", "cfg_attr", "deny", "forbid", "warn"],
        AttrTarget::Param => vec!["allow", "cfg", "cfg_attr", "deny", "forbid", "warn"],
        AttrTarget::RecordField => vec!["allow", "cfg", "cfg_attr", "deny", "forbid", "warn"],
        AttrTarget::Variant => vec![
            "allow", "cfg", "cfg_attr", "deny", "forbid", "warn", "non_exhaustive",
        ],
        AttrTarget::TypeParam => vec!["allow", "cfg", "cfg_attr", "deny", "forbid", "warn"],
        AttrTarget::ConstParam => vec!["allow", "cfg", "cfg_attr", "deny", "forbid", "warn"],
        AttrTarget::LifetimeParam => vec!["allow", "cfg", "cfg_attr", "deny", "forbid", "warn"],
        AttrTarget::LetStmt => vec!["allow", "cfg", "cfg_attr", "deny", "forbid", "warn"],
        AttrTarget::ExprStmt => vec!["allow", "cfg", "cfg_attr", "deny", "forbid", "warn"],
        AttrTarget::Literal => vec!["allow", "cfg", "cfg_attr", "deny", "forbid", "warn"],
        AttrTarget::RecordExprFieldList => vec![
            "allow", "cfg", "cfg_attr", "deny", "forbid", "warn",
        ],
        AttrTarget::RecordExprField => vec!["allow", "cfg", "cfg_attr", "deny", "forbid", "warn"],
        AttrTarget::MatchArmList => vec!["allow", "cfg", "cfg_attr", "deny", "forbid", "warn"],
        AttrTarget::MatchArm => vec!["allow", "cfg", "cfg_attr", "deny", "forbid", "warn"],
        AttrTarget::IdentPat => vec!["allow", "cfg", "cfg_attr", "deny", "forbid", "warn"],
        AttrTarget::RecordPatField => vec!["allow", "cfg", "cfg_attr", "deny", "forbid", "warn"],
        AttrTarget::Expr => vec!["allow", "cfg", "cfg_attr", "deny", "forbid", "warn"],
    }
}

/// The kind of completion that the input of a known attribute gets.
#[derive(Clone, Copy, Debug, PartialEq, Eq, Structural)]
pub enum AttrInput {
    /// `repr(...)`: representation hints.
    Repr,
    /// `derive(...)`: derivable traits.
    Derive,
    /// `feature(...)`: unstable features.
    Feature,
    /// `allow`, `warn`, `deny`, `forbid`: lints.
    Lint,
    /// `cfg(...)`: configuration predicates.
    Cfg,
}

/// The kind of input completion for the attribute named `name`.
pub open spec fn input_kind(name: Seq<char>) -> Option<AttrInput> {
    if name == "repr"@ {
        Some(AttrInput::Repr)
    } else if name == "derive"@ {
        Some(AttrInput::Derive)
    } else if name == "feature"@ {
        Some(AttrInput::Feature)
    } else if name == "allow"@ || name == "warn"@ || name == "deny"@ || name == "forbid"@ {
        Some(AttrInput::Lint)
    } else if name == "cfg"@ {
        Some(AttrInput::Cfg)
    } else {
        None
    }
}

/// Which completion the input of the attribute `name` gets, if it is one
/// whose input is known.
pub fn known_attribute_input(name: &str) -> (r: Option<AttrInput>)
    ensures
        r == input_kind(name@),
{
    if str_eq(name, "repr") {
        Some(AttrInput::Repr)
    } else if str_eq(name, "derive") {
        Some(AttrInput::Derive)
    } else if str_eq(name, "feature") {
        Some(AttrInput::Feature)
    } else if str_eq(name, "allow") || str_eq(name, "warn") || str_eq(name, "deny") || str_eq(
        name,
        "forbid",
    ) {
        Some(AttrInput::Lint)
    } else if str_eq(name, "cfg") {
        Some(AttrInput::Cfg)
    } else {
        None
    }
}

/// The text an entry is looked up and ordered by.
pub open spec fn key_of(a: AttrCompletion) -> Seq<char> {
    match a.lookup {
        Some(l) => l@,
        None => a.label@,
    }
}

/// The first index from `i` on whose entry has the key `name`.
pub open spec fn find_key(table: Seq<AttrCompletion>, name: Seq<char>, i: int) -> Option<int>
    decreases table.len() - i,
{
    if i < 0 || i >= table.len() {
        None
    } else if key_of(table[i]) == name {
        Some(i)
    } else {
        find_key(table, name, i + 1)
    }
}

/// An entry that prefers the inner position is offered there only.
pub open spec fn offered(a: AttrCompletion, is_inner: bool) -> bool {
    is_inner || !a.prefer_inner
}

/// The entries of `table` named by `names`, in the order of `names`, that
/// are offered at the position.
pub open spec fn select_named(table: Seq<AttrCompletion>, names: Seq<&'static str>, is_inner: bool) -> Seq<
    AttrCompletion,
>
    decreases names.len(),
{
    if names.len() == 0 {
        seq![]
    } else {
        let prev = select_named(table, names.drop_last(), is_inner);
        match find_key(table, names.last()@, 0) {
            Some(j) => if offered(table[j], is_inner) {
                prev.push(table[j])
            } else {
                prev
            },
            None => prev,
        }
    }
}

/// The first `n` entries of `table` that are offered at the position.
pub open spec fn select_all(table: Seq<AttrCompletion>, n: int, is_inner: bool) -> Seq<AttrCompletion>
    decreases n,
{
    if n <= 0 {
        seq![]
    } else if offered(table[n - 1], is_inner) {
        select_all(table, n - 1, is_inner).push(table[n - 1])
    } else {
        select_all(table, n - 1, is_inner)
    }
}

fn str_eq(a: &str, b: &str) -> (r: bool)
    ensures
        r == (a@ == b@),
{
    let n = a.unicode_len();
    if n != b.unicode_len() {
        return false;
    }
    let mut i: usize = 0;
    while i < n
        invariant
            n == a@.len(),
            n == b@.len(),
            i <= n,
            forall|k: int| 0 <= k < i ==> a@[k] == b@[k],
        decreases n - i,
    {
        if a.get_char(i) != b.get_char(i) {
            return false;
        }
        i = i + 1;
    }
    assert(a@ =~= b@);
    true
}

fn find_entry(table: &Vec<AttrCompletion>, name: &str) -> (r: Option<usize>)
    ensures
        r matches Some(j) ==> j < table@.len() && find_key(table@, name@, 0) == Some(j as int),
        r is None ==> find_key(table@, name@, 0) is None,
{
    let mut i: usize = 0;
    while i < table.len()
        invariant
            i <= table@.len(),
            find_key(table@, name@, 0) == find_key(table@, name@, i as int),
        decreases table@.len() - i,
    {
        if str_eq(table[i].key(), name) {
            return Some(i);
        }
        i = i + 1;
    }
    None
}

/// The entries of `table` to offer: with `applicable` names, the entry of
/// each name in that order; without, every entry. An entry that prefers the
/// inner position is left out of an outer one.
pub fn select_attributes(
    table: &Vec<AttrCompletion>,
    applicable: Option<&Vec<&'static str>>,
    is_inner: bool,
) -> (r: Vec<AttrCompletion>)
    ensures
        r@ == (match applicable {
            Some(names) => select_named(table@, names@, is_inner),
            None => select_all(table@, table@.len() as int, is_inner),
        }),
{
    let mut out: Vec<AttrCompletion> = Vec::new();
    match applicable {
        Some(names) => {
            let mut i: usize = 0;
            while i < names.len()
                invariant
                    i <= names@.len(),
                    out@ == select_named(table@, names@.subrange(0, i as int), is_inner),
                decreases names@.len() - i,
            {
                proof {
                    assert(names@.subrange(0, i + 1).drop_last() =~= names@.subrange(0, i as int));
                }
                if let Some(j) = find_entry(table, names[i]) {
                    let a = table[j];
                    if is_inner || !a.prefer_inner {
                        out.push(a);
                    }
                }
                i = i + 1;
            }
            proof {
                assert(names@.subrange(0, names@.len() as int) =~= names@);
            }
        },
        None => {
            let mut i: usize = 0;
            while i < table.len()
                invariant
                    i <= table@.len(),
                    out@ == select_all(table@, i as int, is_inner),
                decreases table@.len() - i,
            {
                let a = table[i];
                if is_inner || !a.prefer_inner {
                    out.push(a);
                }
                i = i + 1;
            }
        },
    }
    out
}

} // verus!
