//! Declarations, raw and resolved.
//!
//! A raw declaration references other declarations by name.  Resolution
//! (see [`crate::resolve`]) turns a list of raw declarations into an arena
//! of resolved declarations annotated with layout metadata: children are
//! arena indices, and every child index is smaller than its parent's, so the
//! graph is acyclic by construction.  [`ast_wf`] states the invariant the
//! resolver establishes and every consumer relies on.

use crate::{spec_padding, Alignment};
use vstd::prelude::*;

verus! {

/// The reserved name of the atom.
pub const ATOM_NAME: &'static str = "byte";

/// The reserved primitive spelling of the atom's name.
pub const ATOM_PRIMITIVE_NAME: &'static str = "Byte";

/// The atom's size in bytes.
pub const ATOM_SIZE: usize = 1;

/// A raw field: a field name and the name of its type.
#[derive(Debug, Clone)]
pub struct RawFieldDecl {
    pub name: String,
    pub typ: String,
}

/// A raw declaration, as the schema parser hands it over.
#[derive(Debug, Clone)]
pub enum RawTopDecl {
    /// An optional value: name, inner type name.
    Option_ { name: String, typ: String },
    /// A tagged union: name, ordered item type names.
    Union { name: String, items: Vec<String> },
    /// A fixed array: name, item type name, item count.
    Array { name: String, typ: String, length: usize },
    /// A struct of fixed-size fields.
    Struct { name: String, fields: Vec<RawFieldDecl> },
    /// A vector; becomes a fix-vector or a dyn-vector depending on whether
    /// the item type is fixed-size.
    Vector { name: String, typ: String },
    /// A table of variable-size fields with an offset header.
    Table { name: String, fields: Vec<RawFieldDecl> },
}

impl RawTopDecl {
    pub open spec fn spec_name(&self) -> Seq<char> {
        match self {
            RawTopDecl::Option_ { name, .. } => name@,
            RawTopDecl::Union { name, .. } => name@,
            RawTopDecl::Array { name, .. } => name@,
            RawTopDecl::Struct { name, .. } => name@,
            RawTopDecl::Vector { name, .. } => name@,
            RawTopDecl::Table { name, .. } => name@,
        }
    }

    pub fn name(&self) -> (r: &String)
        ensures
            r@ == self.spec_name(),
    {
        match self {
            RawTopDecl::Option_ { name, .. } => name,
            RawTopDecl::Union { name, .. } => name,
            RawTopDecl::Array { name, .. } => name,
            RawTopDecl::Struct { name, .. } => name,
            RawTopDecl::Vector { name, .. } => name,
            RawTopDecl::Table { name, .. } => name,
        }
    }
}

/// A raw abstract syntax tree: the declaration list, in source order.
#[derive(Debug, Clone)]
pub struct RawAst {
    pub decls: Vec<RawTopDecl>,
}

/// A resolved field: a field name and the arena index of its type.
#[derive(Debug, Clone)]
pub struct FieldDecl {
    pub name: String,
    pub typ: usize,
}

/// A resolved declaration.  Child types are arena indices; all size and
/// padding metadata is in bytes.
#[derive(Debug, Clone)]
pub enum TopDecl {
    /// The one-byte atom.
    Atom { name: String },
    /// An optional value; empty bytes mean "none".
    Option_ { name: String, typ: usize, alignment: Alignment },
    /// A tagged union with an 8-byte header.
    Union { name: String, items: Vec<usize>, alignment: Alignment },
    /// A fixed array of `item_count` fixed-size items.
    Array {
        name: String,
        typ: usize,
        item_size: usize,
        item_padding: usize,
        item_count: usize,
        item_alignment: Alignment,
        alignment: Alignment,
    },
    /// A struct of fixed-size fields, each preceded by its padding.
    Struct {
        name: String,
        fields: Vec<FieldDecl>,
        field_sizes: Vec<usize>,
        field_paddings: Vec<usize>,
        field_alignments: Vec<Alignment>,
        alignment: Alignment,
    },
    /// A vector of fixed-size items with a 4-byte count header.
    FixVec {
        name: String,
        typ: usize,
        item_size: usize,
        item_padding: usize,
        header_padding: usize,
        item_alignment: Alignment,
        alignment: Alignment,
    },
    /// A vector of variable-size items with an 8-byte header and an offset
    /// table.
    DynVec { name: String, typ: usize, item_alignment: Alignment, alignment: Alignment },
    /// A table of variable-size fields with an offset header; tolerates
    /// appended fields in compatible mode.
    Table {
        name: String,
        fields: Vec<FieldDecl>,
        field_alignments: Vec<Alignment>,
        alignment: Alignment,
    },
}

/// The resolved abstract syntax tree.  `decls[0]` is the atom; every other
/// entry only references entries before it.  `order[k]` is the arena index
/// of the `k`-th source declaration.
#[derive(Debug, Clone)]
pub struct Ast {
    pub decls: Vec<TopDecl>,
    pub order: Vec<usize>,
}

impl TopDecl {
    pub open spec fn spec_name(&self) -> Seq<char> {
        match self {
            TopDecl::Atom { name } => name@,
            TopDecl::Option_ { name, .. } => name@,
            TopDecl::Union { name, .. } => name@,
            TopDecl::Array { name, .. } => name@,
            TopDecl::Struct { name, .. } => name@,
            TopDecl::FixVec { name, .. } => name@,
            TopDecl::DynVec { name, .. } => name@,
            TopDecl::Table { name, .. } => name@,
        }
    }

    pub open spec fn spec_is_atom(&self) -> bool {
        self is Atom
    }

    pub open spec fn spec_alignment(&self) -> Alignment {
        match self {
            TopDecl::Atom { .. } => Alignment::Byte1,
            TopDecl::Option_ { alignment, .. } => *alignment,
            TopDecl::Union { alignment, .. } => *alignment,
            TopDecl::Array { alignment, .. } => *alignment,
            TopDecl::Struct { alignment, .. } => *alignment,
            TopDecl::FixVec { alignment, .. } => *alignment,
            TopDecl::DynVec { alignment, .. } => *alignment,
            TopDecl::Table { alignment, .. } => *alignment,
        }
    }

    /// The serialized size when the declaration is fixed-size (atoms,
    /// arrays, structs); `None` for the variable-size shapes.
    pub open spec fn spec_total_size(&self) -> Option<int> {
        match self {
            TopDecl::Atom { .. } => Some(1int),
            TopDecl::Array { item_size, item_padding, item_count, .. } => Some(
                (*item_size + *item_padding) * *item_count - *item_padding,
            ),
            TopDecl::Struct { field_sizes, field_paddings, .. } => Some(
                struct_offset(field_sizes@, field_paddings@, field_sizes@.len() as int),
            ),
            _ => None,
        }
    }

    pub fn name(&self) -> (r: &String)
        ensures
            r@ == self.spec_name(),
    {
        match self {
            TopDecl::Atom { name } => name,
            TopDecl::Option_ { name, .. } => name,
            TopDecl::Union { name, .. } => name,
            TopDecl::Array { name, .. } => name,
            TopDecl::Struct { name, .. } => name,
            TopDecl::FixVec { name, .. } => name,
            TopDecl::DynVec { name, .. } => name,
            TopDecl::Table { name, .. } => name,
        }
    }

    pub fn is_atom(&self) -> (r: bool)
        ensures
            r == self.spec_is_atom(),
    {
        match self {
            TopDecl::Atom { .. } => true,
            _ => false,
        }
    }

    pub fn alignment(&self) -> (r: Alignment)
        ensures
            r == self.spec_alignment(),
    {
        match self {
            TopDecl::Atom { .. } => Alignment::Byte1,
            TopDecl::Option_ { alignment, .. } => *alignment,
            TopDecl::Union { alignment, .. } => *alignment,
            TopDecl::Array { alignment, .. } => *alignment,
            TopDecl::Struct { alignment, .. } => *alignment,
            TopDecl::FixVec { alignment, .. } => *alignment,
            TopDecl::DynVec { alignment, .. } => *alignment,
            TopDecl::Table { alignment, .. } => *alignment,
        }
    }

    /// The kind of the declaration, as code emitters spell it.
    pub open spec fn spec_kind_name(&self) -> Seq<char> {
        match self {
            TopDecl::Atom { .. } => "Byte"@,
            TopDecl::Option_ { .. } => "Option"@,
            TopDecl::Union { .. } => "Union"@,
            TopDecl::Array { .. } => "Array"@,
            TopDecl::Struct { .. } => "Struct"@,
            TopDecl::FixVec { .. } => "FixVec"@,
            TopDecl::DynVec { .. } => "DynVec"@,
            TopDecl::Table { .. } => "Table"@,
        }
    }

    /// The kind of the declaration, for code emitters.
    pub fn kind_name(&self) -> (r: &'static str)
        ensures
            r@ == self.spec_kind_name(),
    {
        match self {
            TopDecl::Atom { .. } => "Byte",
            TopDecl::Option_ { .. } => "Option",
            TopDecl::Union { .. } => "Union",
            TopDecl::Array { .. } => "Array",
            TopDecl::Struct { .. } => "Struct",
            TopDecl::FixVec { .. } => "FixVec",
            TopDecl::DynVec { .. } => "DynVec",
            TopDecl::Table { .. } => "Table",
        }
    }

    /// The ordered children of a composite declaration, as arena indices.
    pub fn children(&self) -> (r: Vec<usize>)
        ensures
            r@ == self.spec_children(),
    {
        match self {
            TopDecl::Atom { .. } => Vec::new(),
            TopDecl::Option_ { typ, .. } => {
                let mut v: Vec<usize> = Vec::new();
                v.push(*typ);
                proof {
                    assert(v@ =~= self.spec_children());
                }
                v
            },
            TopDecl::Union { items, .. } => {
                let v = items.clone();
                proof {
                    assert(v@ =~= self.spec_children());
                }
                v
            },
            TopDecl::Array { typ, .. } => {
                let mut v: Vec<usize> = Vec::new();
                v.push(*typ);
                proof {
                    assert(v@ =~= self.spec_children());
                }
                v
            },
            TopDecl::Struct { fields, .. } => children_of_fields(fields),
            TopDecl::FixVec { typ, .. } => {
                let mut v: Vec<usize> = Vec::new();
                v.push(*typ);
                proof {
                    assert(v@ =~= self.spec_children());
                }
                v
            },
            TopDecl::DynVec { typ, .. } => {
                let mut v: Vec<usize> = Vec::new();
                v.push(*typ);
                proof {
                    assert(v@ =~= self.spec_children());
                }
                v
            },
            TopDecl::Table { fields, .. } => children_of_fields(fields),
        }
    }

    /// The ordered children as arena indices.
    pub open spec fn spec_children(&self) -> Seq<usize> {
        match self {
            TopDecl::Atom { .. } => Seq::empty(),
            TopDecl::Option_ { typ, .. } => seq![*typ],
            TopDecl::Union { items, .. } => items@,
            TopDecl::Array { typ, .. } => seq![*typ],
            TopDecl::Struct { fields, .. } => fields@.map_values(|f: FieldDecl| f.typ),
            TopDecl::FixVec { typ, .. } => seq![*typ],
            TopDecl::DynVec { typ, .. } => seq![*typ],
            TopDecl::Table { fields, .. } => fields@.map_values(|f: FieldDecl| f.typ),
        }
    }
}

fn children_of_fields(fields: &Vec<FieldDecl>) -> (r: Vec<usize>)
    ensures
        r@ == fields@.map_values(|f: FieldDecl| f.typ),
{
    let mut v: Vec<usize> = Vec::new();
    let n = fields.len();
    let mut j: usize = 0;
    while j < n
        invariant
            0 <= j <= n,
            n == fields@.len(),
            v@ == fields@.take(j as int).map_values(|f: FieldDecl| f.typ),
        decreases n - j,
    {
        v.push(fields[j].typ);
        proof {
            assert(fields@.take(j + 1).map_values(|f: FieldDecl| f.typ) =~= fields@.take(
                j as int,
            ).map_values(|f: FieldDecl| f.typ).push(fields@[j as int].typ));
        }
        j = j + 1;
    }
    proof {
        assert(fields@.take(n as int) =~= fields@);
    }
    v
}

/// The byte offset of field `j` in a struct: the sum of the sizes and
/// paddings of the fields before it, plus field `j`'s own padding once `j`
/// is reached.  `struct_offset(sizes, paddings, j)` is the offset at which
/// field `j`'s padding region begins (and `struct_offset(.., n)` the total
/// size).
pub open spec fn struct_offset(sizes: Seq<usize>, paddings: Seq<usize>, j: int) -> int
    decreases j,
{
    if j <= 0 {
        0
    } else {
        struct_offset(sizes, paddings, j - 1) + paddings[j - 1] + sizes[j - 1]
    }
}

/// The alignment of arena entry `i`.
pub open spec fn align_of(d: Seq<TopDecl>, i: int) -> Alignment {
    d[i].spec_alignment()
}

/// The fixed size of arena entry `i`, when it has one.
pub open spec fn fixed_size_of(d: Seq<TopDecl>, i: int) -> Option<int> {
    d[i].spec_total_size()
}

/// The largest alignment among `aligns` (Byte1 when empty).
pub open spec fn max_align(aligns: Seq<Alignment>, j: int) -> Alignment
    decreases j,
{
    if j <= 0 {
        Alignment::Byte1
    } else {
        Alignment::spec_max(max_align(aligns, j - 1), aligns[j - 1])
    }
}

/// Structural well-formedness of one arena entry: children precede it and
/// its layout metadata is exactly what resolution computes.
pub open spec fn decl_wf(d: Seq<TopDecl>, i: int) -> bool {
    match d[i] {
        TopDecl::Atom { .. } => i == 0,
        TopDecl::Option_ { typ, alignment, .. } => {
            &&& 0 <= typ < i
            &&& alignment == align_of(d, typ as int)
        },
        TopDecl::Union { items, alignment, .. } => {
            &&& items@.len() >= 1
            &&& forall|j: int| 0 <= j < items@.len() ==> 0 <= #[trigger] items@[j] < i
            &&& alignment == Alignment::Byte8
        },
        TopDecl::Array {
            typ,
            item_size,
            item_padding,
            item_count,
            item_alignment,
            alignment,
            ..
        } => {
            &&& 0 <= typ < i
            &&& fixed_size_of(d, typ as int) == Some(item_size as int)
            &&& item_size >= 1
            &&& item_count >= 1
            &&& item_alignment == if d[typ as int] is Atom {
                Alignment::Byte1
            } else {
                align_of(d, typ as int)
            }
            &&& item_padding == spec_padding(item_alignment.spec_size(), item_size as nat)
            &&& alignment == if d[typ as int] is Atom {
                Alignment::spec_for_size(item_count as nat)
            } else {
                align_of(d, typ as int)
            }
            &&& (item_size + item_padding) * item_count - item_padding <= u32::MAX
        },
        TopDecl::Struct { fields, field_sizes, field_paddings, field_alignments, alignment, .. } => {
            let n = fields@.len() as int;
            &&& n >= 1
            &&& field_sizes@.len() == n
            &&& field_paddings@.len() == n
            &&& field_alignments@.len() == n
            &&& forall|j: int| 0 <= j < n ==> 0 <= #[trigger] fields@[j].typ < i
            &&& forall|j: int|
                0 <= j < n ==> fixed_size_of(d, #[trigger] fields@[j].typ as int) == Some(
                    field_sizes@[j] as int,
                )
            &&& forall|j: int| 0 <= j < n ==> #[trigger] field_sizes@[j] >= 1
            &&& forall|j: int|
                0 <= j < n ==> #[trigger] field_alignments@[j] == align_of(
                    d,
                    fields@[j].typ as int,
                )
            &&& forall|j: int|
                0 <= j < n ==> #[trigger] field_paddings@[j] == spec_padding(
                    field_alignments@[j].spec_size(),
                    struct_offset(field_sizes@, field_paddings@, j) as nat,
                )
            &&& alignment == max_align(field_alignments@, n)
            &&& struct_offset(field_sizes@, field_paddings@, n) <= u32::MAX
        },
        TopDecl::FixVec {
            typ,
            item_size,
            item_padding,
            header_padding,
            item_alignment,
            alignment,
            ..
        } => {
            &&& 0 <= typ < i
            &&& fixed_size_of(d, typ as int) == Some(item_size as int)
            &&& item_size >= 1
            &&& item_alignment == align_of(d, typ as int)
            &&& item_padding == spec_padding(item_alignment.spec_size(), item_size as nat)
            &&& header_padding == spec_padding(item_alignment.spec_size(), 4)
            &&& alignment == Alignment::spec_max(item_alignment, Alignment::Byte4)
        },
        TopDecl::DynVec { typ, item_alignment, alignment, .. } => {
            &&& 0 <= typ < i
            &&& fixed_size_of(d, typ as int) is None
            &&& item_alignment == align_of(d, typ as int)
            &&& alignment == Alignment::spec_max(item_alignment, Alignment::Byte4)
        },
        TopDecl::Table { fields, field_alignments, alignment, .. } => {
            let n = fields@.len() as int;
            &&& field_alignments@.len() == n
            &&& forall|j: int| 0 <= j < n ==> 0 <= #[trigger] fields@[j].typ < i
            &&& forall|j: int|
                0 <= j < n ==> #[trigger] field_alignments@[j] == align_of(
                    d,
                    fields@[j].typ as int,
                )
            &&& alignment == Alignment::Byte8
            &&& 4 * (2 + n) <= u32::MAX
        },
    }
}

/// Well-formedness of the whole arena: the atom sits at index 0 and nowhere
/// else, every entry is structurally well-formed, and names are unique.
pub open spec fn ast_wf(d: Seq<TopDecl>) -> bool {
    &&& d.len() >= 1
    &&& d[0] is Atom
    &&& forall|i: int| 1 <= i < d.len() ==> !(#[trigger] d[i] is Atom)
    &&& forall|i: int| 0 <= i < d.len() ==> #[trigger] decl_wf(d, i)
    &&& forall|i: int, j: int|
        0 <= i < d.len() && 0 <= j < d.len() && i != j ==> d[i].spec_name() != d[j].spec_name()
}

impl Ast {
    /// The arena invariant, plus: `order` maps each source position to a
    /// non-atom arena entry.
    pub open spec fn wf(&self) -> bool {
        &&& ast_wf(self.decls@)
        &&& forall|k: int|
            0 <= k < self.order@.len() ==> 1 <= #[trigger] self.order@[k] < self.decls@.len()
    }

    /// The number of resolved declarations, the atom included.
    pub fn len(&self) -> (r: usize)
        ensures
            r == self.decls@.len(),
    {
        self.decls.len()
    }

    /// The resolved declaration at arena index `i`.
    pub fn decl(&self, i: usize) -> (r: &TopDecl)
        requires
            i < self.decls@.len(),
        ensures
            r == &self.decls@[i as int],
    {
        &self.decls[i]
    }

    /// The fixed size of arena entry `i`, when it has one.
    pub fn total_size(&self, i: usize) -> (r: Option<usize>)
        requires
            self.wf(),
            i < self.decls@.len(),
        ensures
            match r {
                Some(n) => fixed_size_of(self.decls@, i as int) == Some(n as int),
                None => fixed_size_of(self.decls@, i as int) is None,
            },
    {
        match &self.decls[i] {
            TopDecl::Atom { .. } => Some(1),
            TopDecl::Array { item_size, item_padding, item_count, .. } => {
                proof {
                    assert(decl_wf(self.decls@, i as int));
                    crate::wire::lemma_array_total_bounds(
                        *item_size as int,
                        *item_padding as int,
                        *item_count as int,
                    );
                }
                Some(*item_size * *item_count + *item_padding * (*item_count - 1))
            },
            TopDecl::Struct { field_sizes, field_paddings, .. } => {
                proof {
                    assert(decl_wf(self.decls@, i as int));
                }
                Some(struct_total(field_sizes, field_paddings))
            },
            _ => None,
        }
    }
}

/// The total size of a struct, summed from its field sizes and paddings.
pub fn struct_total(field_sizes: &Vec<usize>, field_paddings: &Vec<usize>) -> (r: usize)
    requires
        field_sizes@.len() == field_paddings@.len(),
        struct_offset(field_sizes@, field_paddings@, field_sizes@.len() as int) <= u32::MAX,
    ensures
        r == struct_offset(field_sizes@, field_paddings@, field_sizes@.len() as int),
{
    let n = field_sizes.len();
    let mut acc: usize = 0;
    let mut j: usize = 0;
    while j < n
        invariant
            0 <= j <= n,
            n == field_sizes@.len(),
            field_sizes@.len() == field_paddings@.len(),
            acc == struct_offset(field_sizes@, field_paddings@, j as int),
            struct_offset(field_sizes@, field_paddings@, n as int) <= u32::MAX,
        decreases n - j,
    {
        proof {
            crate::wire::lemma_struct_offset_mono(field_sizes@, field_paddings@, j + 1, n as int);
        }
        acc = acc + field_paddings[j] + field_sizes[j];
        j = j + 1;
    }
    acc
}

} // verus!
