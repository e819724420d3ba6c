//! The declaration model: a struct is an ordered sequence of fields, an enum
//! an ordered sequence of variants, each with its own fields. Fields may be
//! unnamed (positional); those are never renamed. Every node carries a list of
//! metadata directives, to which the rewrite appends exactly one rename
//! directive per named field and per variant.

use vstd::prelude::*;
use crate::alias::alias_of;
use crate::order::lex_lt;

verus! {

/// One metadata directive attached to a field or variant.
#[derive(Debug, PartialEq, Eq)]
pub enum Attr {
    /// The rename directive: serialize this node under the given alias.
    Rename(String),
    /// Any directive of the caller's own; the rewrite carries it through
    /// untouched.
    Other(String),
}

/// A field of a struct or of an enum variant. `name` is `None` for a
/// positional field; `ty` is the field's type, opaque to the rewrite.
#[derive(Debug, PartialEq, Eq)]
pub struct Field {
    pub name: Option<String>,
    pub ty: String,
    pub attrs: Vec<Attr>,
}

/// An enum variant: a tag name, the variant's own fields (empty for a unit
/// or tuple variant with unnamed fields), and its metadata.
#[derive(Debug, PartialEq, Eq)]
pub struct Variant {
    pub name: String,
    pub fields: Vec<Field>,
    pub attrs: Vec<Attr>,
}

/// A declaration: the input and output of the compaction pass.
#[derive(Debug, PartialEq, Eq)]
pub enum Decl {
    Struct { fields: Vec<Field> },
    Enum { variants: Vec<Variant> },
}

/// Mathematical value of an [`Attr`].
#[verifier::ext_equal]
pub enum AttrView {
    Rename(Seq<char>),
    Other(Seq<char>),
}

/// Mathematical value of a [`Field`].
#[verifier::ext_equal]
pub struct FieldView {
    pub name: Option<Seq<char>>,
    pub ty: Seq<char>,
    pub attrs: Seq<AttrView>,
}

/// Mathematical value of a [`Variant`].
#[verifier::ext_equal]
pub struct VariantView {
    pub name: Seq<char>,
    pub fields: Seq<FieldView>,
    pub attrs: Seq<AttrView>,
}

/// Mathematical value of a [`Decl`].
#[verifier::ext_equal]
pub enum DeclView {
    Struct { fields: Seq<FieldView> },
    Enum { variants: Seq<VariantView> },
}

impl View for Attr {
    type V = AttrView;

    open spec fn view(&self) -> AttrView {
        match self {
            Attr::Rename(s) => AttrView::Rename(s@),
            Attr::Other(s) => AttrView::Other(s@),
        }
    }
}

impl View for Field {
    type V = FieldView;

    open spec fn view(&self) -> FieldView {
        FieldView {
            name: match self.name {
                Option::Some(s) => Option::Some(s@),
                Option::None => Option::None,
            },
            ty: self.ty@,
            attrs: self.attrs@.map_values(|a: Attr| a@),
        }
    }
}

impl View for Variant {
    type V = VariantView;

    open spec fn view(&self) -> VariantView {
        VariantView {
            name: self.name@,
            fields: self.fields@.map_values(|f: Field| f@),
            attrs: self.attrs@.map_values(|a: Attr| a@),
        }
    }
}

impl View for Decl {
    type V = DeclView;

    open spec fn view(&self) -> DeclView {
        match self {
            Decl::Struct { fields } => DeclView::Struct {
                fields: fields@.map_values(|f: Field| f@),
            },
            Decl::Enum { variants } => DeclView::Enum {
                variants: variants@.map_values(|v: Variant| v@),
            },
        }
    }
}

/// The views of a sequence of fields.
pub open spec fn field_views(fs: Seq<Field>) -> Seq<FieldView> {
    fs.map_values(|f: Field| f@)
}

/// The views of a sequence of variants.
pub open spec fn variant_views(vs: Seq<Variant>) -> Seq<VariantView> {
    vs.map_values(|v: Variant| v@)
}

/// The names a single field contributes: its own name, if it has one.
pub open spec fn field_names(f: FieldView) -> Set<Seq<char>> {
    match f.name {
        Option::Some(n) => Set::empty().insert(n),
        Option::None => Set::empty(),
    }
}

/// The names contributed by a sequence of fields.
pub open spec fn fields_names(fs: Seq<FieldView>) -> Set<Seq<char>>
    decreases fs.len(),
{
    if fs.len() == 0 {
        Set::empty()
    } else {
        fields_names(fs.drop_last()).union(field_names(fs.last()))
    }
}

/// The names a variant contributes: its tag and its fields' names.
pub open spec fn variant_names(v: VariantView) -> Set<Seq<char>> {
    fields_names(v.fields).insert(v.name)
}

/// The names contributed by a sequence of variants.
pub open spec fn variants_names(vs: Seq<VariantView>) -> Set<Seq<char>>
    decreases vs.len(),
{
    if vs.len() == 0 {
        Set::empty()
    } else {
        variants_names(vs.drop_last()).union(variant_names(vs.last()))
    }
}

/// Every name in a declaration that requires an alias: all field names,
/// and for an enum every variant tag as well.
pub open spec fn decl_names(d: DeclView) -> Set<Seq<char>> {
    match d {
        DeclView::Struct { fields } => fields_names(fields),
        DeclView::Enum { variants } => variants_names(variants),
    }
}

/// How many names of `s` precede `n` in the lexicographic order: the index
/// `n` receives when the distinct names of `s` are sorted.
pub open spec fn name_rank(s: Set<Seq<char>>, n: Seq<char>) -> nat {
    s.filter(|m: Seq<char>| lex_lt(m, n)).len()
}

/// The alias a name receives when compacted within the name set `s`: the
/// encoding of its sorted position. A pure function of the name set alone,
/// which is what makes the assignment deterministic.
pub open spec fn alias_in(s: Set<Seq<char>>, n: Seq<char>) -> Seq<char> {
    alias_of(name_rank(s, n))
}

/// The rewritten form of one field: a named field gains one rename directive
/// at the end of its metadata, an unnamed field is returned unchanged.
pub open spec fn rewrite_field(f: FieldView, s: Set<Seq<char>>) -> FieldView {
    match f.name {
        Option::Some(n) => FieldView {
            name: f.name,
            ty: f.ty,
            attrs: f.attrs.push(AttrView::Rename(alias_in(s, n))),
        },
        Option::None => f,
    }
}

/// The rewritten form of a field sequence, in order.
pub open spec fn rewrite_fields(fs: Seq<FieldView>, s: Set<Seq<char>>) -> Seq<FieldView> {
    fs.map_values(|f: FieldView| rewrite_field(f, s))
}

/// The rewritten form of a variant: its tag gains a rename directive, and
/// each of its fields is rewritten.
pub open spec fn rewrite_variant(v: VariantView, s: Set<Seq<char>>) -> VariantView {
    VariantView {
        name: v.name,
        fields: rewrite_fields(v.fields, s),
        attrs: v.attrs.push(AttrView::Rename(alias_in(s, v.name))),
    }
}

/// The rewritten form of a variant sequence, in order.
pub open spec fn rewrite_variants(vs: Seq<VariantView>, s: Set<Seq<char>>) -> Seq<VariantView> {
    vs.map_values(|v: VariantView| rewrite_variant(v, s))
}

/// The rewritten form of a whole declaration under the name set `s`.
pub open spec fn rewrite_decl(d: DeclView, s: Set<Seq<char>>) -> DeclView {
    match d {
        DeclView::Struct { fields } => DeclView::Struct { fields: rewrite_fields(fields, s) },
        DeclView::Enum { variants } => DeclView::Enum { variants: rewrite_variants(variants, s) },
    }
}

/// The name set of a field sequence is finite.
pub proof fn lemma_fields_names_finite(fs: Seq<FieldView>)
    ensures
        fields_names(fs).finite(),
    decreases fs.len(),
{
    if fs.len() > 0 {
        lemma_fields_names_finite(fs.drop_last());
    }
}

/// The name set of a variant sequence is finite.
pub proof fn lemma_variants_names_finite(vs: Seq<VariantView>)
    ensures
        variants_names(vs).finite(),
    decreases vs.len(),
{
    if vs.len() > 0 {
        lemma_variants_names_finite(vs.drop_last());
        lemma_fields_names_finite(vs.last().fields);
    }
}

/// The name set of a declaration is finite.
pub proof fn lemma_decl_names_finite(d: DeclView)
    ensures
        decl_names(d).finite(),
{
    match d {
        DeclView::Struct { fields } => lemma_fields_names_finite(fields),
        DeclView::Enum { variants } => lemma_variants_names_finite(variants),
    }
}

/// Each field's names are contained in the names of any field sequence
/// holding it.
pub proof fn lemma_fields_names_member(fs: Seq<FieldView>, i: int)
    requires
        0 <= i < fs.len(),
    ensures
        field_names(fs[i]).subset_of(fields_names(fs)),
    decreases fs.len(),
{
    if i < fs.len() - 1 {
        lemma_fields_names_member(fs.drop_last(), i);
    }
}

/// Each variant's names are contained in the names of any variant sequence
/// holding it.
pub proof fn lemma_variants_names_member(vs: Seq<VariantView>, i: int)
    requires
        0 <= i < vs.len(),
    ensures
        variant_names(vs[i]).subset_of(variants_names(vs)),
    decreases vs.len(),
{
    if i < vs.len() - 1 {
        lemma_variants_names_member(vs.drop_last(), i);
    }
}

} // verus!
