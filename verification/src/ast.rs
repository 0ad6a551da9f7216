//! The resolved IDL declarations that the generation engine consumes.
//!
//! All of these are immutable, read-only inputs for one generation pass.
//! The front end guarantees well-formedness; `wf_file` states exactly what
//! the engine relies on (resolved, acyclic base links; unique field names;
//! ascending tags; unique enumerator values).
use vstd::prelude::*;

verus! {

/// A primitive IDL type.
#[derive(Clone, Copy, PartialEq, Eq, Structural)]
pub enum Primitive {
    Bool,
    Int32,
    Str,
}

/// A resolved reference to the type of a field or parameter.
pub enum TypeRef {
    Prim(Primitive),
    Sequence(Box<TypeRef>),
    Dictionary(Box<TypeRef>, Box<TypeRef>),
    Optional(Box<TypeRef>),
    Named(String),
}

/// One field of a struct, class or exception. A field is required when
/// `tag` is `None`, and tagged-optional when `tag` is `Some`.
pub struct Field {
    pub name: String,
    pub ty: TypeRef,
    pub tag: Option<u64>,
}

pub struct StructDef {
    pub name: String,
    pub fields: Vec<Field>,
}

/// A class; `base` is an index into the declaring module's entity list.
pub struct ClassDef {
    pub name: String,
    pub base: Option<usize>,
    pub fields: Vec<Field>,
}

/// An exception; like a class for data layout, but mapped to the host
/// language's error-signaling type.
pub struct ExceptionDef {
    pub name: String,
    pub base: Option<usize>,
    pub fields: Vec<Field>,
}

pub struct Enumerator {
    pub name: String,
    pub value: u32,
}

pub struct EnumDef {
    pub name: String,
    pub enumerators: Vec<Enumerator>,
}

/// Direction of an operation parameter.
#[derive(Clone, Copy, PartialEq, Eq, Structural)]
pub enum Direction {
    Input,
    Output,
}

pub struct Param {
    pub name: String,
    pub ty: TypeRef,
    pub direction: Direction,
}

pub struct Operation {
    pub name: String,
    pub params: Vec<Param>,
    pub ret: Option<TypeRef>,
}

/// An interface; `bases` are indices into the declaring module's entity list.
pub struct InterfaceDef {
    pub name: String,
    pub bases: Vec<usize>,
    pub ops: Vec<Operation>,
}

/// The closed set of entity kinds; the dispatch site matches exhaustively,
/// so every kind is handled everywhere.
pub enum Entity {
    Struct(StructDef),
    Class(ClassDef),
    Exception(ExceptionDef),
    Enum(EnumDef),
    Interface(InterfaceDef),
}

/// A module declaration: a nested name path and the entities it declares,
/// in source order.
pub struct ModuleDecl {
    pub path: Vec<String>,
    pub entities: Vec<Entity>,
}

/// One parsed IDL file. A file with no module declares nothing.
pub struct SliceFile {
    pub filename: String,
    pub module: Option<ModuleDecl>,
}

/// The options structure threaded through every generator call; carries
/// the tool version used in the preamble and is otherwise passed through
/// unchanged.
pub struct CsOptions {
    pub tool_version: String,
}

/// The reserved wire tag that closes a tagged-field section.
pub const TAG_END: u64 = 0xffff_ffff_ffff_ffff;

/// Field lists are well formed when names are unique, required fields
/// precede tagged ones, and tags are strictly ascending and below the
/// reserved end marker.
pub open spec fn wf_fields(fields: Seq<Field>) -> bool {
    &&& forall|i: int, j: int|
        0 <= i < j < fields.len() ==> fields[i].name@ != fields[j].name@
    &&& forall|i: int, j: int|
        0 <= i < j < fields.len() && fields[i].tag is Some ==> fields[j].tag is Some
    &&& forall|i: int, j: int|
        0 <= i < j < fields.len() && fields[i].tag is Some && fields[j].tag is Some
            ==> fields[i].tag->0 < fields[j].tag->0
    &&& forall|i: int| 0 <= i < fields.len() && fields[i].tag is Some ==> fields[i].tag->0 < TAG_END
}

pub open spec fn wf_enum(e: EnumDef) -> bool {
    forall|i: int, j: int|
        0 <= i < j < e.enumerators@.len() ==> e.enumerators@[i].value != e.enumerators@[j].value
}

/// Well-formedness of one entity relative to the entities declared before
/// it: base links point backwards to an entity of the same kind, so every
/// inheritance chain is acyclic and fully resolved.
pub open spec fn wf_entity(entities: Seq<Entity>, i: int) -> bool {
    match entities[i] {
        Entity::Struct(s) => wf_fields(s.fields@),
        Entity::Class(c) => {
            &&& wf_fields(c.fields@)
            &&& match c.base {
                Some(b) => b < i && entities[b as int] is Class,
                None => true,
            }
        },
        Entity::Exception(e) => {
            &&& wf_fields(e.fields@)
            &&& match e.base {
                Some(b) => b < i && entities[b as int] is Exception,
                None => true,
            }
        },
        Entity::Enum(e) => wf_enum(e),
        Entity::Interface(f) => {
            forall|k: int|
                0 <= k < f.bases@.len()
                    ==> f.bases@[k] < i && entities[#[trigger] f.bases@[k] as int] is Interface
        },
    }
}

pub open spec fn wf_entities(entities: Seq<Entity>) -> bool {
    forall|i: int| 0 <= i < entities.len() ==> wf_entity(entities, i)
}

pub open spec fn wf_file(file: SliceFile) -> bool {
    match file.module {
        Some(m) => wf_entities(m.entities@),
        None => true,
    }
}

/// The chain of class (or exception) levels from the root base down to
/// entity `i`, as indices. Totalized: a link that does not point strictly
/// backwards ends the chain, so the function is well defined even off the
/// well-formed domain.
pub open spec fn base_of(entities: Seq<Entity>, i: int) -> Option<usize> {
    match entities[i] {
        Entity::Class(c) => c.base,
        Entity::Exception(e) => e.base,
        _ => None,
    }
}

pub open spec fn chain(entities: Seq<Entity>, i: int) -> Seq<int>
    decreases i,
{
    match base_of(entities, i) {
        Some(b) => if 0 <= (b as int) < i {
            chain(entities, b as int).push(i)
        } else {
            seq![i]
        },
        None => seq![i],
    }
}

/// The fields an entity declares at its own level.
pub open spec fn own_fields(entities: Seq<Entity>, i: int) -> Seq<Field> {
    match entities[i] {
        Entity::Struct(s) => s.fields@,
        Entity::Class(c) => c.fields@,
        Entity::Exception(e) => e.fields@,
        _ => Seq::empty(),
    }
}

/// Clones a type reference; the copy is equal to the original.
pub fn clone_type_ref(t: &TypeRef) -> (r: TypeRef)
    ensures
        r == *t,
    decreases t,
{
    match t {
        TypeRef::Prim(p) => TypeRef::Prim(*p),
        TypeRef::Sequence(e) => TypeRef::Sequence(Box::new(clone_type_ref(&**e))),
        TypeRef::Dictionary(k, v) => TypeRef::Dictionary(
            Box::new(clone_type_ref(&**k)),
            Box::new(clone_type_ref(&**v)),
        ),
        TypeRef::Optional(e) => TypeRef::Optional(Box::new(clone_type_ref(&**e))),
        TypeRef::Named(n) => TypeRef::Named(n.clone()),
    }
}

/// Clones a field; the copy is equal to the original.
pub fn clone_field(f: &Field) -> (r: Field)
    ensures
        r == *f,
{
    Field { name: f.name.clone(), ty: clone_type_ref(&f.ty), tag: f.tag }
}

pub open spec fn entity_name(entities: Seq<Entity>, i: int) -> Seq<char> {
    match entities[i] {
        Entity::Struct(s) => s.name@,
        Entity::Class(c) => c.name@,
        Entity::Exception(e) => e.name@,
        Entity::Enum(e) => e.name@,
        Entity::Interface(f) => f.name@,
    }
}

} // verus!
