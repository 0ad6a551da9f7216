//! The per-entity generators, the visitor dispatch over the closed entity
//! kind set, and the file orchestrator.
//!
//! Every generator pins its output text to a spec-level function of the
//! entity (and, for class-like entities and interfaces, of the declaring
//! module's entity list), so generation is deterministic: the same inputs
//! give byte-identical text.
use vstd::prelude::*;

use crate::assembler::CodeBlock;
use crate::assembler::spec_render;
use crate::ast::CsOptions;
use crate::ast::Entity;
use crate::ast::EnumDef;
use crate::ast::Enumerator;
use crate::ast::Field;
use crate::ast::Operation;
use crate::ast::Param;
use crate::ast::SliceFile;
use crate::ast::StructDef;
use crate::ast::base_of;
use crate::ast::clone_field;
use crate::ast::entity_name;
use crate::ast::own_fields;
use crate::ast::wf_entities;
use crate::ast::wf_file;
use crate::ast::Direction;
use crate::ops::merged_ops;
use crate::ops::merged_op_refs;
use crate::ops::op_at;
use crate::ops::op_ref;
use crate::ops::op_refs_match;
use crate::text::cs_type;
use crate::text::cs_type_string;
use crate::text::dec_rep;
use crate::text::dec_string;
use crate::text::dotted;
use crate::text::dotted_name;

verus! {

// ---------------------------------------------------------------------------
// Field-level text: one member, constructor entry, encode and decode
// statement per field.
// ---------------------------------------------------------------------------
/// One member declaration per field, host-language type from the fixed
/// mapping.
pub open spec fn member_line(f: Field) -> Seq<char> {
    "    public "@ + cs_type(f.ty) + " "@ + f.name@ + ";\n"@
}

pub open spec fn members_text(fields: Seq<Field>) -> Seq<char>
    decreases fields.len(),
{
    if fields.len() == 0 {
        Seq::empty()
    } else {
        members_text(fields.drop_last()) + member_line(fields.last())
    }
}

fn members_string(fields: &Vec<Field>) -> (r: String)
    ensures
        r@ == members_text(fields@),
{
    let mut r = String::new();
    let mut i: usize = 0;
    while i < fields.len()
        invariant
            i <= fields@.len(),
            r@ == members_text(fields@.take(i as int)),
        decreases fields@.len() - i,
    {
        let f = &fields[i];
        let ty = cs_type_string(&f.ty);
        r.append("    public ");
        r.append(ty.as_str());
        r.append(" ");
        r.append(f.name.as_str());
        r.append(";\n");
        proof {
            assert(fields@.take(i + 1).drop_last() =~= fields@.take(i as int));
            assert(fields@.take(i + 1).last() == fields@[i as int]);
            assert(r@ =~= members_text(fields@.take(i + 1)));
        }
        i = i + 1;
    }
    proof {
        assert(fields@.take(fields@.len() as int) =~= fields@);
    }
    r
}

/// One constructor parameter per field, in declaration order.
pub open spec fn ctor_param(f: Field) -> Seq<char> {
    cs_type(f.ty) + " "@ + f.name@
}

pub open spec fn ctor_params_text(fields: Seq<Field>) -> Seq<char>
    decreases fields.len(),
{
    if fields.len() == 0 {
        Seq::empty()
    } else if fields.len() == 1 {
        ctor_param(fields[0])
    } else {
        ctor_params_text(fields.drop_last()) + ", "@ + ctor_param(fields.last())
    }
}

fn ctor_params_string(fields: &Vec<Field>) -> (r: String)
    ensures
        r@ == ctor_params_text(fields@),
{
    let mut r = String::new();
    let mut i: usize = 0;
    while i < fields.len()
        invariant
            i <= fields@.len(),
            r@ == ctor_params_text(fields@.take(i as int)),
        decreases fields@.len() - i,
    {
        let f = &fields[i];
        if i > 0 {
            r.append(", ");
        }
        let ty = cs_type_string(&f.ty);
        r.append(ty.as_str());
        r.append(" ");
        r.append(f.name.as_str());
        proof {
            assert(fields@.take(i + 1).drop_last() =~= fields@.take(i as int));
            assert(fields@.take(i + 1).last() == fields@[i as int]);
            assert(r@ =~= ctor_params_text(fields@.take(i + 1)));
        }
        i = i + 1;
    }
    proof {
        assert(fields@.take(fields@.len() as int) =~= fields@);
    }
    r
}

/// One constructor assignment per field, preserving declaration order.
pub open spec fn ctor_assign_line(f: Field) -> Seq<char> {
    "        this."@ + f.name@ + " = "@ + f.name@ + ";\n"@
}

pub open spec fn ctor_assigns_text(fields: Seq<Field>) -> Seq<char>
    decreases fields.len(),
{
    if fields.len() == 0 {
        Seq::empty()
    } else {
        ctor_assigns_text(fields.drop_last()) + ctor_assign_line(fields.last())
    }
}

fn ctor_assigns_string(fields: &Vec<Field>) -> (r: String)
    ensures
        r@ == ctor_assigns_text(fields@),
{
    let mut r = String::new();
    let mut i: usize = 0;
    while i < fields.len()
        invariant
            i <= fields@.len(),
            r@ == ctor_assigns_text(fields@.take(i as int)),
        decreases fields@.len() - i,
    {
        let f = &fields[i];
        r.append("        this.");
        r.append(f.name.as_str());
        r.append(" = ");
        r.append(f.name.as_str());
        r.append(";\n");
        proof {
            assert(fields@.take(i + 1).drop_last() =~= fields@.take(i as int));
            assert(fields@.take(i + 1).last() == fields@[i as int]);
            assert(r@ =~= ctor_assigns_text(fields@.take(i + 1)));
        }
        i = i + 1;
    }
    proof {
        assert(fields@.take(fields@.len() as int) =~= fields@);
    }
    r
}

/// The encode statement for one field: a required field is written
/// unconditionally; a tagged field is written with its explicit tag so a
/// receiver on another encoded version can skip it.
pub open spec fn encode_stmt_line(f: Field) -> Seq<char> {
    match f.tag {
        None => "        encoder.Encode(this."@ + f.name@ + ");\n"@,
        Some(t) => "        encoder.EncodeTagged("@ + dec_rep(t) + ", this."@ + f.name@ + ");\n"@,
    }
}

pub open spec fn encode_stmts_text(fields: Seq<Field>) -> Seq<char>
    decreases fields.len(),
{
    if fields.len() == 0 {
        Seq::empty()
    } else {
        encode_stmts_text(fields.drop_last()) + encode_stmt_line(fields.last())
    }
}

fn encode_stmts_string(fields: &Vec<Field>) -> (r: String)
    ensures
        r@ == encode_stmts_text(fields@),
{
    let mut r = String::new();
    let mut i: usize = 0;
    while i < fields.len()
        invariant
            i <= fields@.len(),
            r@ == encode_stmts_text(fields@.take(i as int)),
        decreases fields@.len() - i,
    {
        let f = &fields[i];
        match &f.tag {
            None => {
                r.append("        encoder.Encode(this.");
                r.append(f.name.as_str());
                r.append(");\n");
            },
            Some(t) => {
                let tag = dec_string(*t);
                r.append("        encoder.EncodeTagged(");
                r.append(tag.as_str());
                r.append(", this.");
                r.append(f.name.as_str());
                r.append(");\n");
            },
        }
        proof {
            assert(fields@.take(i + 1).drop_last() =~= fields@.take(i as int));
            assert(fields@.take(i + 1).last() == fields@[i as int]);
            assert(r@ =~= encode_stmts_text(fields@.take(i + 1)));
        }
        i = i + 1;
    }
    proof {
        assert(fields@.take(fields@.len() as int) =~= fields@);
    }
    r
}

/// The decode statement for one field, same order and tag discipline as the
/// encode side.
pub open spec fn decode_stmt_line(f: Field) -> Seq<char> {
    match f.tag {
        None => "        this."@ + f.name@ + " = decoder.Decode<"@ + cs_type(f.ty) + ">();\n"@,
        Some(t) => "        this."@ + f.name@ + " = decoder.DecodeTagged<"@ + cs_type(f.ty) + ">("@
            + dec_rep(t) + ");\n"@,
    }
}

pub open spec fn decode_stmts_text(fields: Seq<Field>) -> Seq<char>
    decreases fields.len(),
{
    if fields.len() == 0 {
        Seq::empty()
    } else {
        decode_stmts_text(fields.drop_last()) + decode_stmt_line(fields.last())
    }
}

fn decode_stmts_string(fields: &Vec<Field>) -> (r: String)
    ensures
        r@ == decode_stmts_text(fields@),
{
    let mut r = String::new();
    let mut i: usize = 0;
    while i < fields.len()
        invariant
            i <= fields@.len(),
            r@ == decode_stmts_text(fields@.take(i as int)),
        decreases fields@.len() - i,
    {
        let f = &fields[i];
        let ty = cs_type_string(&f.ty);
        match &f.tag {
            None => {
                r.append("        this.");
                r.append(f.name.as_str());
                r.append(" = decoder.Decode<");
                r.append(ty.as_str());
                r.append(">();\n");
            },
            Some(t) => {
                let tag = dec_string(*t);
                r.append("        this.");
                r.append(f.name.as_str());
                r.append(" = decoder.DecodeTagged<");
                r.append(ty.as_str());
                r.append(">(");
                r.append(tag.as_str());
                r.append(");\n");
            },
        }
        proof {
            assert(fields@.take(i + 1).drop_last() =~= fields@.take(i as int));
            assert(fields@.take(i + 1).last() == fields@[i as int]);
            assert(r@ =~= decode_stmts_text(fields@.take(i + 1)));
        }
        i = i + 1;
    }
    proof {
        assert(fields@.take(fields@.len() as int) =~= fields@);
    }
    r
}

// ---------------------------------------------------------------------------
// Struct generator.
// ---------------------------------------------------------------------------
/// The full source fragment for one struct: member layout, the all-fields
/// constructor in declaration order, and encode/decode walking the fields
/// in that same order. A struct with zero fields still yields a valid
/// (empty) type with no-op encode/decode.
pub open spec fn spec_struct_fragment(s: StructDef) -> Seq<char> {
    "public partial struct "@ + s.name@ + "\n{\n"@ + members_text(s.fields@) + "\n    public "@
        + s.name@ + "("@ + ctor_params_text(s.fields@) + ")\n    {\n"@ + ctor_assigns_text(
        s.fields@,
    ) + "    }\n"@ + "\n    public void Encode(SliceEncoder encoder)\n    {\n"@ + encode_stmts_text(
        s.fields@,
    ) + "    }\n"@ + "\n    public void Decode(SliceDecoder decoder)\n    {\n"@ + decode_stmts_text(
        s.fields@,
    ) + "    }\n}"@
}

/// Generates the source fragment for one struct.
pub fn generate_struct(s: &StructDef) -> (r: String)
    ensures
        r@ == spec_struct_fragment(*s),
{
    let mut r = String::from_str("public partial struct ");
    r.append(s.name.as_str());
    r.append("\n{\n");
    let members = members_string(&s.fields);
    r.append(members.as_str());
    r.append("\n    public ");
    r.append(s.name.as_str());
    r.append("(");
    let params = ctor_params_string(&s.fields);
    r.append(params.as_str());
    r.append(")\n    {\n");
    let assigns = ctor_assigns_string(&s.fields);
    r.append(assigns.as_str());
    r.append("    }\n");
    r.append("\n    public void Encode(SliceEncoder encoder)\n    {\n");
    let enc = encode_stmts_string(&s.fields);
    r.append(enc.as_str());
    r.append("    }\n");
    r.append("\n    public void Decode(SliceDecoder decoder)\n    {\n");
    let dec = decode_stmts_string(&s.fields);
    r.append(dec.as_str());
    r.append("    }\n}");
    proof {
        assert(r@ =~= spec_struct_fragment(*s));
    }
    r
}

// ---------------------------------------------------------------------------
// Class and exception generators.
// ---------------------------------------------------------------------------
/// All fields of the inheritance chain of entity `i`, base levels first,
/// each level in declaration order. Totalized like `chain`.
pub open spec fn spec_chain_fields(entities: Seq<Entity>, i: int) -> Seq<Field>
    decreases i,
{
    match base_of(entities, i) {
        Some(b) => if 0 <= (b as int) < i {
            spec_chain_fields(entities, b as int) + own_fields(entities, i)
        } else {
            own_fields(entities, i)
        },
        None => own_fields(entities, i),
    }
}

fn own_fields_of<'a>(entities: &'a Vec<Entity>, i: usize) -> (r: &'a Vec<Field>)
    requires
        i < entities@.len(),
        entities@[i as int] is Class || entities@[i as int] is Exception,
    ensures
        r@ == own_fields(entities@, i as int),
{
    match &entities[i] {
        Entity::Class(c) => &c.fields,
        Entity::Exception(e) => &e.fields,
        _ => vstd::pervasive::unreached(),
    }
}

fn base_index_of(entities: &Vec<Entity>, i: usize) -> (r: Option<usize>)
    requires
        i < entities@.len(),
    ensures
        r == base_of(entities@, i as int),
{
    match &entities[i] {
        Entity::Class(c) => c.base,
        Entity::Exception(e) => e.base,
        _ => None,
    }
}

/// Collects the fields of the whole inheritance chain, base levels first.
fn chain_fields(entities: &Vec<Entity>, i: usize) -> (r: Vec<Field>)
    requires
        wf_entities(entities@),
        i < entities@.len(),
        entities@[i as int] is Class || entities@[i as int] is Exception,
    ensures
        r@ == spec_chain_fields(entities@, i as int),
    decreases i,
{
    let mut r: Vec<Field> = match base_index_of(entities, i) {
        Some(b) => {
            proof {
                assert(crate::ast::wf_entity(entities@, i as int));
            }
            chain_fields(entities, b)
        },
        None => Vec::new(),
    };
    let ghost prefix = r@;
    let own = own_fields_of(entities, i);
    let mut k: usize = 0;
    while k < own.len()
        invariant
            k <= own@.len(),
            r@ == prefix + own@.take(k as int),
        decreases own@.len() - k,
    {
        r.push(clone_field(&own[k]));
        proof {
            assert(prefix + own@.take(k + 1) =~= (prefix + own@.take(k as int)).push(
                own@[k as int],
            ));
        }
        k = k + 1;
    }
    proof {
        assert(own@.take(own@.len() as int) =~= own@);
        assert(r@ =~= spec_chain_fields(entities@, i as int));
    }
    r
}

/// Borrows an entity's declared name.
pub fn entity_name_of<'a>(entities: &'a Vec<Entity>, i: usize) -> (r: &'a String)
    requires
        i < entities@.len(),
    ensures
        r@ == entity_name(entities@, i as int),
{
    match &entities[i] {
        Entity::Struct(s) => &s.name,
        Entity::Class(c) => &c.name,
        Entity::Exception(e) => &e.name,
        Entity::Enum(e) => &e.name,
        Entity::Interface(f) => &f.name,
    }
}

/// The source fragment shared by classes and exceptions: a reference type
/// deriving from its declared base (or from the given runtime root when it
/// has none), the all-fields constructor over the whole chain base-first,
/// and encode/decode that first chain to the base, then handle the entity's
/// own fields — base-to-derived order on both sides.
pub open spec fn spec_class_like_fragment(
    entities: Seq<Entity>,
    i: int,
    default_base: Seq<char>,
) -> Seq<char> {
    let heritage = match base_of(entities, i) {
        Some(b) => if 0 <= (b as int) < i {
            " : "@ + entity_name(entities, b as int)
        } else {
            default_base
        },
        None => default_base,
    };
    let modifier = if base_of(entities, i) is Some {
        "override"@
    } else {
        "virtual"@
    };
    let base_encode = if base_of(entities, i) is Some {
        "        base.Encode(encoder);\n"@
    } else {
        Seq::<char>::empty()
    };
    let base_decode = if base_of(entities, i) is Some {
        "        base.Decode(decoder);\n"@
    } else {
        Seq::<char>::empty()
    };
    "public partial class "@ + entity_name(entities, i) + heritage + "\n{\n"@ + members_text(
        own_fields(entities, i),
    ) + "\n    public "@ + entity_name(entities, i) + "("@ + ctor_params_text(
        spec_chain_fields(entities, i),
    ) + ")\n    {\n"@ + ctor_assigns_text(spec_chain_fields(entities, i)) + "    }\n"@
        + "\n    public "@ + modifier + " void Encode(SliceEncoder encoder)\n    {\n"@ + base_encode
        + encode_stmts_text(own_fields(entities, i)) + "    }\n"@ + "\n    public "@ + modifier
        + " void Decode(SliceDecoder decoder)\n    {\n"@ + base_decode + decode_stmts_text(
        own_fields(entities, i),
    ) + "    }\n}"@
}

pub open spec fn spec_class_fragment(entities: Seq<Entity>, i: int) -> Seq<char> {
    spec_class_like_fragment(entities, i, " : SliceClass"@)
}

pub open spec fn spec_exception_fragment(entities: Seq<Entity>, i: int) -> Seq<char> {
    spec_class_like_fragment(entities, i, " : SliceException"@)
}

fn class_like_string(entities: &Vec<Entity>, i: usize, default_base: &str) -> (r: String)
    requires
        wf_entities(entities@),
        i < entities@.len(),
        entities@[i as int] is Class || entities@[i as int] is Exception,
    ensures
        r@ == spec_class_like_fragment(entities@, i as int, default_base@),
{
    let name = entity_name_of(entities, i);
    let base = base_index_of(entities, i);
    let own = own_fields_of(entities, i);
    let all = chain_fields(entities, i);
    let mut r = String::from_str("public partial class ");
    r.append(name.as_str());
    match base {
        Some(b) => {
            proof {
                assert(crate::ast::wf_entity(entities@, i as int));
            }
            r.append(" : ");
            let base_name = entity_name_of(entities, b);
            r.append(base_name.as_str());
        },
        None => {
            r.append(default_base);
        },
    }
    r.append("\n{\n");
    let members = members_string(own);
    r.append(members.as_str());
    r.append("\n    public ");
    r.append(name.as_str());
    r.append("(");
    let params = ctor_params_string(&all);
    r.append(params.as_str());
    r.append(")\n    {\n");
    let assigns = ctor_assigns_string(&all);
    r.append(assigns.as_str());
    r.append("    }\n");
    r.append("\n    public ");
    if base.is_some() {
        r.append("override");
    } else {
        r.append("virtual");
    }
    r.append(" void Encode(SliceEncoder encoder)\n    {\n");
    if base.is_some() {
        r.append("        base.Encode(encoder);\n");
    }
    let enc = encode_stmts_string(own);
    r.append(enc.as_str());
    r.append("    }\n");
    r.append("\n    public ");
    if base.is_some() {
        r.append("override");
    } else {
        r.append("virtual");
    }
    r.append(" void Decode(SliceDecoder decoder)\n    {\n");
    if base.is_some() {
        r.append("        base.Decode(decoder);\n");
    }
    let dec = decode_stmts_string(own);
    r.append(dec.as_str());
    r.append("    }\n}");
    proof {
        assert(r@ =~= spec_class_like_fragment(entities@, i as int, default_base@));
    }
    r
}

/// Generates the source fragment for one class.
pub fn generate_class(entities: &Vec<Entity>, i: usize) -> (r: String)
    requires
        wf_entities(entities@),
        i < entities@.len(),
        entities@[i as int] is Class,
    ensures
        r@ == spec_class_fragment(entities@, i as int),
{
    class_like_string(entities, i, " : SliceClass")
}

/// Generates the source fragment for one exception.
pub fn generate_exception(entities: &Vec<Entity>, i: usize) -> (r: String)
    requires
        wf_entities(entities@),
        i < entities@.len(),
        entities@[i as int] is Exception,
    ensures
        r@ == spec_exception_fragment(entities@, i as int),
{
    class_like_string(entities, i, " : SliceException")
}

// ---------------------------------------------------------------------------
// Enum generator.
// ---------------------------------------------------------------------------
pub open spec fn enum_member_line(e: Enumerator) -> Seq<char> {
    "    "@ + e.name@ + " = "@ + dec_rep(e.value as u64) + ",\n"@
}

pub open spec fn enum_members_text(enumerators: Seq<Enumerator>) -> Seq<char>
    decreases enumerators.len(),
{
    if enumerators.len() == 0 {
        Seq::empty()
    } else {
        enum_members_text(enumerators.drop_last()) + enum_member_line(enumerators.last())
    }
}

fn enum_members_string(enumerators: &Vec<Enumerator>) -> (r: String)
    ensures
        r@ == enum_members_text(enumerators@),
{
    let mut r = String::new();
    let mut i: usize = 0;
    while i < enumerators.len()
        invariant
            i <= enumerators@.len(),
            r@ == enum_members_text(enumerators@.take(i as int)),
        decreases enumerators@.len() - i,
    {
        let e = &enumerators[i];
        let value = dec_string(e.value as u64);
        r.append("    ");
        r.append(e.name.as_str());
        r.append(" = ");
        r.append(value.as_str());
        r.append(",\n");
        proof {
            assert(enumerators@.take(i + 1).drop_last() =~= enumerators@.take(i as int));
            assert(enumerators@.take(i + 1).last() == enumerators@[i as int]);
            assert(r@ =~= enum_members_text(enumerators@.take(i + 1)));
        }
        i = i + 1;
    }
    proof {
        assert(enumerators@.take(enumerators@.len() as int) =~= enumerators@);
    }
    r
}

/// One decode-validation arm per enumerator: a received integer equal to a
/// declared value yields that enumerator.
pub open spec fn enum_case_line(name: Seq<char>, e: Enumerator) -> Seq<char> {
    "            "@ + dec_rep(e.value as u64) + " => "@ + name + "."@ + e.name@ + ",\n"@
}

pub open spec fn enum_cases_text(name: Seq<char>, enumerators: Seq<Enumerator>) -> Seq<char>
    decreases enumerators.len(),
{
    if enumerators.len() == 0 {
        Seq::empty()
    } else {
        enum_cases_text(name, enumerators.drop_last()) + enum_case_line(name, enumerators.last())
    }
}

fn enum_cases_string(name: &String, enumerators: &Vec<Enumerator>) -> (r: String)
    ensures
        r@ == enum_cases_text(name@, enumerators@),
{
    let mut r = String::new();
    let mut i: usize = 0;
    while i < enumerators.len()
        invariant
            i <= enumerators@.len(),
            r@ == enum_cases_text(name@, enumerators@.take(i as int)),
        decreases enumerators@.len() - i,
    {
        let e = &enumerators[i];
        let value = dec_string(e.value as u64);
        r.append("            ");
        r.append(value.as_str());
        r.append(" => ");
        r.append(name.as_str());
        r.append(".");
        r.append(e.name.as_str());
        r.append(",\n");
        proof {
            assert(enumerators@.take(i + 1).drop_last() =~= enumerators@.take(i as int));
            assert(enumerators@.take(i + 1).last() == enumerators@[i as int]);
            assert(r@ =~= enum_cases_text(name@, enumerators@.take(i + 1)));
        }
        i = i + 1;
    }
    proof {
        assert(enumerators@.take(enumerators@.len() as int) =~= enumerators@);
    }
    r
}

/// The full source fragment for one enum: the declaration with one member
/// per enumerator, and a decode-validation helper that maps a received
/// integer to the matching enumerator and fails any other value with
/// `InvalidEnumValue`.
pub open spec fn spec_enum_fragment(e: EnumDef) -> Seq<char> {
    "public enum "@ + e.name@ + "\n{\n"@ + enum_members_text(e.enumerators@) + "}\n\n"@
        + "public static class "@ + e.name@ + "Extensions\n{\n    public static "@ + e.name@
        + " As"@ + e.name@ + "(this int value) =>\n        value switch\n        {\n"@
        + enum_cases_text(e.name@, e.enumerators@)
        + "            _ => throw new InvalidEnumValue(value),\n        };\n}"@
}

/// Generates the source fragment for one enum.
pub fn generate_enum(e: &EnumDef) -> (r: String)
    ensures
        r@ == spec_enum_fragment(*e),
{
    let mut r = String::from_str("public enum ");
    r.append(e.name.as_str());
    r.append("\n{\n");
    let members = enum_members_string(&e.enumerators);
    r.append(members.as_str());
    r.append("}\n\n");
    r.append("public static class ");
    r.append(e.name.as_str());
    r.append("Extensions\n{\n    public static ");
    r.append(e.name.as_str());
    r.append(" As");
    r.append(e.name.as_str());
    r.append("(this int value) =>\n        value switch\n        {\n");
    let cases = enum_cases_string(&e.name, &e.enumerators);
    r.append(cases.as_str());
    r.append("            _ => throw new InvalidEnumValue(value),\n        };\n}");
    proof {
        assert(r@ =~= spec_enum_fragment(*e));
    }
    r
}

// ---------------------------------------------------------------------------
// Operation-level text shared by the proxy and dispatch generators.
// ---------------------------------------------------------------------------
pub open spec fn ret_text(ret: Option<crate::ast::TypeRef>) -> Seq<char> {
    match ret {
        Some(t) => cs_type(t),
        None => "void"@,
    }
}

fn ret_string(ret: &Option<crate::ast::TypeRef>) -> (r: String)
    ensures
        r@ == ret_text(*ret),
{
    match ret {
        Some(t) => cs_type_string(t),
        None => String::from_str("void"),
    }
}

pub open spec fn param_sig(p: Param) -> Seq<char> {
    match p.direction {
        Direction::Input => cs_type(p.ty) + " "@ + p.name@,
        Direction::Output => "out "@ + cs_type(p.ty) + " "@ + p.name@,
    }
}

pub open spec fn params_sig_text(params: Seq<Param>) -> Seq<char>
    decreases params.len(),
{
    if params.len() == 0 {
        Seq::empty()
    } else if params.len() == 1 {
        param_sig(params[0])
    } else {
        params_sig_text(params.drop_last()) + ", "@ + param_sig(params.last())
    }
}

fn params_sig_string(params: &Vec<Param>) -> (r: String)
    ensures
        r@ == params_sig_text(params@),
{
    let mut r = String::new();
    let mut i: usize = 0;
    while i < params.len()
        invariant
            i <= params@.len(),
            r@ == params_sig_text(params@.take(i as int)),
        decreases params@.len() - i,
    {
        let p = &params[i];
        if i > 0 {
            r.append(", ");
        }
        if let Direction::Output = p.direction {
            r.append("out ");
        }
        let ty = cs_type_string(&p.ty);
        r.append(ty.as_str());
        r.append(" ");
        r.append(p.name.as_str());
        proof {
            assert(params@.take(i + 1).drop_last() =~= params@.take(i as int));
            assert(params@.take(i + 1).last() == params@[i as int]);
            assert(r@ =~= params_sig_text(params@.take(i + 1)));
        }
        i = i + 1;
    }
    proof {
        assert(params@.take(params@.len() as int) =~= params@);
    }
    r
}

/// The argument text with which a dispatch entry invokes its hook.
pub open spec fn call_arg(p: Param) -> Seq<char> {
    match p.direction {
        Direction::Input => p.name@,
        Direction::Output => "out var "@ + p.name@,
    }
}

pub open spec fn call_args_text(params: Seq<Param>) -> Seq<char>
    decreases params.len(),
{
    if params.len() == 0 {
        Seq::empty()
    } else if params.len() == 1 {
        call_arg(params[0])
    } else {
        call_args_text(params.drop_last()) + ", "@ + call_arg(params.last())
    }
}

fn call_args_string(params: &Vec<Param>) -> (r: String)
    ensures
        r@ == call_args_text(params@),
{
    let mut r = String::new();
    let mut i: usize = 0;
    while i < params.len()
        invariant
            i <= params@.len(),
            r@ == call_args_text(params@.take(i as int)),
        decreases params@.len() - i,
    {
        let p = &params[i];
        if i > 0 {
            r.append(", ");
        }
        if let Direction::Output = p.direction {
            r.append("out var ");
        }
        r.append(p.name.as_str());
        proof {
            assert(params@.take(i + 1).drop_last() =~= params@.take(i as int));
            assert(params@.take(i + 1).last() == params@[i as int]);
            assert(r@ =~= call_args_text(params@.take(i + 1)));
        }
        i = i + 1;
    }
    proof {
        assert(params@.take(params@.len() as int) =~= params@);
    }
    r
}

/// Serialization of one input parameter on the proxy side.
pub open spec fn in_encode_line(p: Param) -> Seq<char> {
    "        payload.Encode("@ + p.name@ + ");\n"@
}

pub open spec fn in_encode_text(params: Seq<Param>) -> Seq<char>
    decreases params.len(),
{
    if params.len() == 0 {
        Seq::empty()
    } else {
        in_encode_text(params.drop_last()) + if params.last().direction is Input {
            in_encode_line(params.last())
        } else {
            Seq::<char>::empty()
        }
    }
}

fn in_encode_string(params: &Vec<Param>) -> (r: String)
    ensures
        r@ == in_encode_text(params@),
{
    let mut r = String::new();
    let mut i: usize = 0;
    while i < params.len()
        invariant
            i <= params@.len(),
            r@ == in_encode_text(params@.take(i as int)),
        decreases params@.len() - i,
    {
        let p = &params[i];
        if let Direction::Input = p.direction {
            r.append("        payload.Encode(");
            r.append(p.name.as_str());
            r.append(");\n");
        }
        proof {
            assert(params@.take(i + 1).drop_last() =~= params@.take(i as int));
            assert(params@.take(i + 1).last() == params@[i as int]);
            assert(r@ =~= in_encode_text(params@.take(i + 1)));
        }
        i = i + 1;
    }
    proof {
        assert(params@.take(params@.len() as int) =~= params@);
    }
    r
}

/// Deserialization of one output parameter on the proxy side.
pub open spec fn out_decode_line(p: Param) -> Seq<char> {
    "        "@ + p.name@ + " = response.Decode<"@ + cs_type(p.ty) + ">();\n"@
}

pub open spec fn out_decode_text(params: Seq<Param>) -> Seq<char>
    decreases params.len(),
{
    if params.len() == 0 {
        Seq::empty()
    } else {
        out_decode_text(params.drop_last()) + if params.last().direction is Output {
            out_decode_line(params.last())
        } else {
            Seq::<char>::empty()
        }
    }
}

fn out_decode_string(params: &Vec<Param>) -> (r: String)
    ensures
        r@ == out_decode_text(params@),
{
    let mut r = String::new();
    let mut i: usize = 0;
    while i < params.len()
        invariant
            i <= params@.len(),
            r@ == out_decode_text(params@.take(i as int)),
        decreases params@.len() - i,
    {
        let p = &params[i];
        if let Direction::Output = p.direction {
            let ty = cs_type_string(&p.ty);
            r.append("        ");
            r.append(p.name.as_str());
            r.append(" = response.Decode<");
            r.append(ty.as_str());
            r.append(">();\n");
        }
        proof {
            assert(params@.take(i + 1).drop_last() =~= params@.take(i as int));
            assert(params@.take(i + 1).last() == params@[i as int]);
            assert(r@ =~= out_decode_text(params@.take(i + 1)));
        }
        i = i + 1;
    }
    proof {
        assert(params@.take(params@.len() as int) =~= params@);
    }
    r
}

/// Deserialization of one input parameter on the dispatch side.
pub open spec fn in_var_line(p: Param) -> Seq<char> {
    "        var "@ + p.name@ + " = request.Decode<"@ + cs_type(p.ty) + ">();\n"@
}

pub open spec fn in_var_text(params: Seq<Param>) -> Seq<char>
    decreases params.len(),
{
    if params.len() == 0 {
        Seq::empty()
    } else {
        in_var_text(params.drop_last()) + if params.last().direction is Input {
            in_var_line(params.last())
        } else {
            Seq::<char>::empty()
        }
    }
}

fn in_var_string(params: &Vec<Param>) -> (r: String)
    ensures
        r@ == in_var_text(params@),
{
    let mut r = String::new();
    let mut i: usize = 0;
    while i < params.len()
        invariant
            i <= params@.len(),
            r@ == in_var_text(params@.take(i as int)),
        decreases params@.len() - i,
    {
        let p = &params[i];
        if let Direction::Input = p.direction {
            let ty = cs_type_string(&p.ty);
            r.append("        var ");
            r.append(p.name.as_str());
            r.append(" = request.Decode<");
            r.append(ty.as_str());
            r.append(">();\n");
        }
        proof {
            assert(params@.take(i + 1).drop_last() =~= params@.take(i as int));
            assert(params@.take(i + 1).last() == params@[i as int]);
            assert(r@ =~= in_var_text(params@.take(i + 1)));
        }
        i = i + 1;
    }
    proof {
        assert(params@.take(params@.len() as int) =~= params@);
    }
    r
}

pub open spec fn has_out_param(params: Seq<Param>) -> bool {
    exists|j: int| 0 <= j < params.len() && params[j].direction is Output
}

/// Whether an operation awaits a reply payload: it returns a value or has
/// an output parameter. Otherwise its proxy method is the send-and-await-
/// acknowledgement-only shape.
pub open spec fn op_has_reply(op: Operation) -> bool {
    op.ret is Some || has_out_param(op.params@)
}

fn op_has_reply_exec(op: &Operation) -> (r: bool)
    ensures
        r == op_has_reply(*op),
{
    if op.ret.is_some() {
        return true;
    }
    let mut i: usize = 0;
    while i < op.params.len()
        invariant
            i <= op.params@.len(),
            forall|j: int| 0 <= j < i ==> !(op.params@[j].direction is Output),
        decreases op.params@.len() - i,
    {
        if let Direction::Output = op.params[i].direction {
            return true;
        }
        i = i + 1;
    }
    false
}

// ---------------------------------------------------------------------------
// Proxy generator.
// ---------------------------------------------------------------------------
/// One client-callable proxy method: serializes the input parameters,
/// issues the request, and deserializes the return value and output
/// parameters; with no return and no output parameter it only sends and
/// awaits the acknowledgement.
pub open spec fn proxy_method_text(op: Operation) -> Seq<char> {
    "\n    public "@ + ret_text(op.ret) + " "@ + op.name@ + "("@ + params_sig_text(op.params@)
        + ")\n    {\n"@ + "        var payload = new PayloadEncoder();\n"@ + in_encode_text(
        op.params@,
    ) + (if op_has_reply(op) {
        "        var response = this.Invoker.Invoke(\""@ + op.name@ + "\", payload);\n"@
            + out_decode_text(op.params@) + (match op.ret {
            Some(t) => "        return response.Decode<"@ + cs_type(t) + ">();\n"@,
            None => Seq::<char>::empty(),
        })
    } else {
        "        this.Invoker.InvokeOneway(\""@ + op.name@ + "\", payload);\n"@
    }) + "    }\n"@
}

fn proxy_method_string(op: &Operation) -> (r: String)
    ensures
        r@ == proxy_method_text(*op),
{
    let mut r = String::from_str("\n    public ");
    let ret = ret_string(&op.ret);
    r.append(ret.as_str());
    r.append(" ");
    r.append(op.name.as_str());
    r.append("(");
    let sig = params_sig_string(&op.params);
    r.append(sig.as_str());
    r.append(")\n    {\n");
    r.append("        var payload = new PayloadEncoder();\n");
    let enc = in_encode_string(&op.params);
    r.append(enc.as_str());
    if op_has_reply_exec(op) {
        r.append("        var response = this.Invoker.Invoke(\"");
        r.append(op.name.as_str());
        r.append("\", payload);\n");
        let outs = out_decode_string(&op.params);
        r.append(outs.as_str());
        match &op.ret {
            Some(t) => {
                let ty = cs_type_string(t);
                r.append("        return response.Decode<");
                r.append(ty.as_str());
                r.append(">();\n");
            },
            None => {},
        }
    } else {
        r.append("        this.Invoker.InvokeOneway(\"");
        r.append(op.name.as_str());
        r.append("\", payload);\n");
    }
    r.append("    }\n");
    proof {
        assert(r@ =~= proxy_method_text(*op));
    }
    r
}

pub open spec fn proxy_methods_text(ops: Seq<Operation>) -> Seq<char>
    decreases ops.len(),
{
    if ops.len() == 0 {
        Seq::empty()
    } else {
        proxy_methods_text(ops.drop_last()) + proxy_method_text(ops.last())
    }
}

/// The full source fragment for an interface's client-side proxy: one
/// method per operation of the merged (own and inherited, de-duplicated)
/// operation set.
pub open spec fn spec_proxy_fragment(entities: Seq<Entity>, i: int) -> Seq<char> {
    "public partial struct "@ + entity_name(entities, i) + "Proxy\n{\n    public IInvoker Invoker;\n"@
        + proxy_methods_text(merged_ops(entities, i)) + "}"@
}

/// Generates the client-side proxy fragment for one interface.
pub fn generate_proxy(entities: &Vec<Entity>, i: usize) -> (r: String)
    requires
        wf_entities(entities@),
        i < entities@.len(),
        entities@[i as int] is Interface,
    ensures
        r@ == spec_proxy_fragment(entities@, i as int),
{
    let name = entity_name_of(entities, i);
    let mut r = String::from_str("public partial struct ");
    r.append(name.as_str());
    r.append("Proxy\n{\n    public IInvoker Invoker;\n");
    let refs = merged_op_refs(entities, i);
    let ghost merged_seq = merged_ops(entities@, i as int);
    let mut k: usize = 0;
    while k < refs.len()
        invariant
            i < entities@.len(),
            merged_seq == merged_ops(entities@, i as int),
            op_refs_match(entities@, refs@, merged_seq),
            k <= refs@.len(),
            r@ == "public partial struct "@ + entity_name(entities@, i as int)
                + "Proxy\n{\n    public IInvoker Invoker;\n"@ + proxy_methods_text(
                merged_seq.take(k as int),
            ),
        decreases refs@.len() - k,
    {
        let op = op_ref(entities, refs[k]);
        proof {
            assert(op_at(entities@, refs@[k as int]) == merged_seq[k as int]);
        }
        let method = proxy_method_string(op);
        r.append(method.as_str());
        proof {
            assert(merged_seq.take(k + 1).drop_last() =~= merged_seq.take(k as int));
            assert(merged_seq.take(k + 1).last() == merged_seq[k as int]);
        }
        k = k + 1;
    }
    r.append("}");
    proof {
        assert(merged_seq.take(merged_seq.len() as int) =~= merged_seq);
        assert(r@ =~= spec_proxy_fragment(entities@, i as int));
    }
    r
}

// ---------------------------------------------------------------------------
// Dispatch generator.
// ---------------------------------------------------------------------------
/// One routing entry: a request naming this operation is handed to its
/// dispatch method.
pub open spec fn dispatch_case_line(op: Operation) -> Seq<char> {
    "            case \""@ + op.name@ + "\": return Dispatch_"@ + op.name@ + "(request);\n"@
}

pub open spec fn dispatch_cases_text(ops: Seq<Operation>) -> Seq<char>
    decreases ops.len(),
{
    if ops.len() == 0 {
        Seq::empty()
    } else {
        dispatch_cases_text(ops.drop_last()) + dispatch_case_line(ops.last())
    }
}

/// One server-side dispatch entry: decodes the input parameters, invokes
/// the abstract per-operation hook, and encodes the result; an exception
/// declared by the contract becomes a typed failure reply, while any other
/// fault propagates, never silently swallowed.
pub open spec fn dispatch_method_text(op: Operation) -> Seq<char> {
    "\n    private Response Dispatch_"@ + op.name@ + "(Request request)\n    {\n"@ + in_var_text(
        op.params@,
    ) + "        try\n        {\n"@ + (match op.ret {
        Some(_) => "            var result = this."@ + op.name@ + "("@ + call_args_text(op.params@)
            + ");\n            return Response.FromResult(result);\n"@,
        None => "            this."@ + op.name@ + "("@ + call_args_text(op.params@)
            + ");\n            return Response.Empty();\n"@,
    })
        + "        }\n        catch (SliceException exception)\n        {\n            return Response.FromException(exception);\n        }\n    }\n"@
        + "\n    public abstract "@ + ret_text(op.ret) + " "@ + op.name@ + "("@ + params_sig_text(
        op.params@,
    ) + ");\n"@
}

fn dispatch_method_string(op: &Operation) -> (r: String)
    ensures
        r@ == dispatch_method_text(*op),
{
    let mut r = String::from_str("\n    private Response Dispatch_");
    r.append(op.name.as_str());
    r.append("(Request request)\n    {\n");
    let ins = in_var_string(&op.params);
    r.append(ins.as_str());
    r.append("        try\n        {\n");
    let args = call_args_string(&op.params);
    match &op.ret {
        Some(_) => {
            r.append("            var result = this.");
            r.append(op.name.as_str());
            r.append("(");
            r.append(args.as_str());
            r.append(");\n            return Response.FromResult(result);\n");
        },
        None => {
            r.append("            this.");
            r.append(op.name.as_str());
            r.append("(");
            r.append(args.as_str());
            r.append(");\n            return Response.Empty();\n");
        },
    }
    r.append(
        "        }\n        catch (SliceException exception)\n        {\n            return Response.FromException(exception);\n        }\n    }\n",
    );
    r.append("\n    public abstract ");
    let ret = ret_string(&op.ret);
    r.append(ret.as_str());
    r.append(" ");
    r.append(op.name.as_str());
    r.append("(");
    let sig = params_sig_string(&op.params);
    r.append(sig.as_str());
    r.append(");\n");
    proof {
        assert(r@ =~= dispatch_method_text(*op));
    }
    r
}

pub open spec fn dispatch_methods_text(ops: Seq<Operation>) -> Seq<char>
    decreases ops.len(),
{
    if ops.len() == 0 {
        Seq::empty()
    } else {
        dispatch_methods_text(ops.drop_last()) + dispatch_method_text(ops.last())
    }
}

/// The full source fragment for an interface's server-side dispatcher: a
/// routing switch over the merged operation set that rejects any other
/// operation name with `UnknownOperation`, one dispatch entry per
/// operation, and one abstract hook per operation for the service
/// implementation to fill in.
pub open spec fn spec_dispatch_fragment(entities: Seq<Entity>, i: int) -> Seq<char> {
    "public abstract partial class "@ + entity_name(entities, i)
        + "Dispatcher\n{\n    public Response Dispatch(string operation, Request request)\n    {\n        switch (operation)\n        {\n"@
        + dispatch_cases_text(merged_ops(entities, i))
        + "            default: throw new UnknownOperation(operation);\n        }\n    }\n"@
        + dispatch_methods_text(merged_ops(entities, i)) + "}"@
}

/// Generates the server-side dispatch fragment for one interface.
pub fn generate_dispatch(entities: &Vec<Entity>, i: usize) -> (r: String)
    requires
        wf_entities(entities@),
        i < entities@.len(),
        entities@[i as int] is Interface,
    ensures
        r@ == spec_dispatch_fragment(entities@, i as int),
{
    let name = entity_name_of(entities, i);
    let mut r = String::from_str("public abstract partial class ");
    r.append(name.as_str());
    r.append(
        "Dispatcher\n{\n    public Response Dispatch(string operation, Request request)\n    {\n        switch (operation)\n        {\n",
    );
    let refs = merged_op_refs(entities, i);
    let ghost merged_seq = merged_ops(entities@, i as int);
    let ghost header = r@;
    let mut k: usize = 0;
    while k < refs.len()
        invariant
            i < entities@.len(),
            merged_seq == merged_ops(entities@, i as int),
            op_refs_match(entities@, refs@, merged_seq),
            k <= refs@.len(),
            r@ == header + dispatch_cases_text(merged_seq.take(k as int)),
        decreases refs@.len() - k,
    {
        let op = op_ref(entities, refs[k]);
        proof {
            assert(op_at(entities@, refs@[k as int]) == merged_seq[k as int]);
        }
        r.append("            case \"");
        r.append(op.name.as_str());
        r.append("\": return Dispatch_");
        r.append(op.name.as_str());
        r.append("(request);\n");
        proof {
            assert(merged_seq.take(k + 1).drop_last() =~= merged_seq.take(k as int));
            assert(merged_seq.take(k + 1).last() == merged_seq[k as int]);
            assert(r@ =~= header + dispatch_cases_text(merged_seq.take(k + 1)));
        }
        k = k + 1;
    }
    r.append("            default: throw new UnknownOperation(operation);\n        }\n    }\n");
    let ghost mid = r@;
    let mut m: usize = 0;
    while m < refs.len()
        invariant
            i < entities@.len(),
            merged_seq == merged_ops(entities@, i as int),
            op_refs_match(entities@, refs@, merged_seq),
            m <= refs@.len(),
            r@ == mid + dispatch_methods_text(merged_seq.take(m as int)),
        decreases refs@.len() - m,
    {
        let op = op_ref(entities, refs[m]);
        proof {
            assert(op_at(entities@, refs@[m as int]) == merged_seq[m as int]);
        }
        let method = dispatch_method_string(op);
        r.append(method.as_str());
        proof {
            assert(merged_seq.take(m + 1).drop_last() =~= merged_seq.take(m as int));
            assert(merged_seq.take(m + 1).last() == merged_seq[m as int]);
        }
        m = m + 1;
    }
    r.append("}");
    proof {
        assert(merged_seq.take(merged_seq.len() as int) =~= merged_seq);
        assert(r@ =~= spec_dispatch_fragment(entities@, i as int));
    }
    r
}

// ---------------------------------------------------------------------------
// Visitor dispatcher.
// ---------------------------------------------------------------------------
/// The fragments one entity contributes to an output unit: data-type
/// fragments only when generating the types unit, proxy then dispatch
/// fragments only when generating the interfaces unit. The partition
/// guarantees the two units never contain foreign declarations.
pub open spec fn entity_fragments(entities: Seq<Entity>, i: int, for_interfaces: bool) -> Seq<
    Seq<char>,
> {
    match entities[i] {
        Entity::Struct(s) => if for_interfaces {
            Seq::empty()
        } else {
            seq![spec_struct_fragment(s)]
        },
        Entity::Class(_) => if for_interfaces {
            Seq::empty()
        } else {
            seq![spec_class_fragment(entities, i)]
        },
        Entity::Exception(_) => if for_interfaces {
            Seq::empty()
        } else {
            seq![spec_exception_fragment(entities, i)]
        },
        Entity::Enum(e) => if for_interfaces {
            Seq::empty()
        } else {
            seq![spec_enum_fragment(e)]
        },
        Entity::Interface(_) => if for_interfaces {
            seq![
                spec_proxy_fragment(entities, i),
                spec_dispatch_fragment(entities, i),
            ]
        } else {
            Seq::empty()
        },
    }
}

/// The fragments the first `n` entities contribute, in declaration order,
/// each visited exactly once.
pub open spec fn entities_fragments(entities: Seq<Entity>, for_interfaces: bool, n: int) -> Seq<
    Seq<char>,
>
    decreases n,
{
    if n <= 0 {
        Seq::empty()
    } else {
        entities_fragments(entities, for_interfaces, n - 1) + entity_fragments(
            entities,
            n - 1,
            for_interfaces,
        )
    }
}

/// The visitor: walks entities in declaration order and routes each to the
/// generator for its kind, restricted by the output-unit flag.
pub struct Generator {
    pub for_interfaces: bool,
}

impl Generator {
    /// Appends the struct's fragment when generating the types unit; skips
    /// it entirely for the interfaces unit.
    pub fn visit_struct(&self, code: &mut CodeBlock, s: &StructDef)
        ensures
            final(code)@ == if self.for_interfaces {
                old(code)@
            } else {
                old(code)@.push(spec_struct_fragment(*s))
            },
    {
        if !self.for_interfaces {
            code.add_block(generate_struct(s));
        }
    }

    /// Appends the class's fragment when generating the types unit.
    pub fn visit_class(&self, code: &mut CodeBlock, entities: &Vec<Entity>, i: usize)
        requires
            wf_entities(entities@),
            i < entities@.len(),
            entities@[i as int] is Class,
        ensures
            final(code)@ == if self.for_interfaces {
                old(code)@
            } else {
                old(code)@.push(spec_class_fragment(entities@, i as int))
            },
    {
        if !self.for_interfaces {
            code.add_block(generate_class(entities, i));
        }
    }

    /// Appends the exception's fragment when generating the types unit.
    pub fn visit_exception(&self, code: &mut CodeBlock, entities: &Vec<Entity>, i: usize)
        requires
            wf_entities(entities@),
            i < entities@.len(),
            entities@[i as int] is Exception,
        ensures
            final(code)@ == if self.for_interfaces {
                old(code)@
            } else {
                old(code)@.push(spec_exception_fragment(entities@, i as int))
            },
    {
        if !self.for_interfaces {
            code.add_block(generate_exception(entities, i));
        }
    }

    /// Appends the enum's fragment when generating the types unit.
    pub fn visit_enum(&self, code: &mut CodeBlock, e: &EnumDef)
        ensures
            final(code)@ == if self.for_interfaces {
                old(code)@
            } else {
                old(code)@.push(spec_enum_fragment(*e))
            },
    {
        if !self.for_interfaces {
            code.add_block(generate_enum(e));
        }
    }

    /// Appends the interface's proxy fragment, then its dispatch fragment,
    /// when generating the interfaces unit; skips it for the types unit.
    pub fn visit_interface(&self, code: &mut CodeBlock, entities: &Vec<Entity>, i: usize)
        requires
            wf_entities(entities@),
            i < entities@.len(),
            entities@[i as int] is Interface,
        ensures
            final(code)@ == if self.for_interfaces {
                old(code)@.push(spec_proxy_fragment(entities@, i as int)).push(
                    spec_dispatch_fragment(entities@, i as int),
                )
            } else {
                old(code)@
            },
    {
        if self.for_interfaces {
            code.add_block(generate_proxy(entities, i));
            code.add_block(generate_dispatch(entities, i));
        }
    }

    /// Traverses every entity exactly once, in declaration order, and
    /// invokes the matching generator for the selected output unit.
    pub fn visit_all(&self, code: &mut CodeBlock, entities: &Vec<Entity>)
        requires
            wf_entities(entities@),
        ensures
            final(code)@ == old(code)@ + entities_fragments(
                entities@,
                self.for_interfaces,
                entities@.len() as int,
            ),
    {
        let ghost start = code@;
        let mut i: usize = 0;
        while i < entities.len()
            invariant
                wf_entities(entities@),
                i <= entities@.len(),
                code@ == start + entities_fragments(entities@, self.for_interfaces, i as int),
            decreases entities@.len() - i,
        {
            match &entities[i] {
                Entity::Struct(s) => self.visit_struct(code, s),
                Entity::Class(_) => self.visit_class(code, entities, i),
                Entity::Exception(_) => self.visit_exception(code, entities, i),
                Entity::Enum(e) => self.visit_enum(code, e),
                Entity::Interface(_) => self.visit_interface(code, entities, i),
            }
            proof {
                assert(code@ =~= start + entities_fragments(
                    entities@,
                    self.for_interfaces,
                    i + 1,
                ));
            }
            i = i + 1;
        }
    }
}

// ---------------------------------------------------------------------------
// File orchestrator.
// ---------------------------------------------------------------------------
/// The fixed warning-suppression header with the tool version and the
/// source file name, used verbatim for reproducible builds.
pub open spec fn spec_preamble(filename: Seq<char>, version: Seq<char>) -> Seq<char> {
    "// <auto-generated/>\n// slicec-cs version: '"@ + version + "'\n// Generated from file: '"@
        + filename
        + ".slice'\n\n#nullable enable\n\n#pragma warning disable CS1591 // Missing XML Comment\n#pragma warning disable CS1573 // Parameter has no matching param tag in the XML comment\n#pragma warning disable CS0612 // Type or member is obsolete\n#pragma warning disable CS0618 // Type or member is obsolete\n#pragma warning disable CS0619 // Type or member is obsolete\n"@
}

/// Starts an output unit with the preamble at its top.
pub fn preamble(slice_file: &SliceFile, options: &CsOptions) -> (r: CodeBlock)
    ensures
        r@ == seq![spec_preamble(slice_file.filename@, options.tool_version@)],
{
    let mut text = String::from_str("// <auto-generated/>\n// slicec-cs version: '");
    text.append(options.tool_version.as_str());
    text.append("'\n// Generated from file: '");
    text.append(slice_file.filename.as_str());
    text.append(
        ".slice'\n\n#nullable enable\n\n#pragma warning disable CS1591 // Missing XML Comment\n#pragma warning disable CS1573 // Parameter has no matching param tag in the XML comment\n#pragma warning disable CS0612 // Type or member is obsolete\n#pragma warning disable CS0618 // Type or member is obsolete\n#pragma warning disable CS0619 // Type or member is obsolete\n",
    );
    proof {
        assert(text@ =~= spec_preamble(slice_file.filename@, options.tool_version@));
    }
    let mut r = CodeBlock::new();
    r.add_block(text);
    proof {
        assert(r@ =~= seq![spec_preamble(slice_file.filename@, options.tool_version@)]);
    }
    r
}

/// The ordered fragments of one output unit: preamble, the unit kind's
/// import block (the types unit also carries the assembly-level metadata
/// attribute naming the originating file), then — only when the file
/// declares a module — the namespace declaration and the visited entities'
/// fragments.
pub open spec fn spec_file_fragments(
    file: SliceFile,
    for_interfaces: bool,
    options: CsOptions,
) -> Seq<Seq<char>> {
    let base = seq![spec_preamble(file.filename@, options.tool_version@)];
    let with_imports = if for_interfaces {
        base.push("using IceRpc.Slice;\nusing ZeroC.Slice;"@)
    } else {
        base.push("using ZeroC.Slice;"@).push(
            "[assembly:Slice(\""@ + file.filename@ + ".slice\")]"@,
        )
    };
    match file.module {
        Some(m) => with_imports.push("namespace "@ + dotted(m.path@) + ";"@) + entities_fragments(
            m.entities@,
            for_interfaces,
            m.entities@.len() as int,
        ),
        None => with_imports,
    }
}

/// The complete text of one output unit: the fragments joined with blank
/// lines and a single trailing newline.
pub open spec fn spec_generate_file(
    file: SliceFile,
    for_interfaces: bool,
    options: CsOptions,
) -> Seq<char> {
    spec_render(spec_file_fragments(file, for_interfaces, options)) + "\n"@
}

/// Produces one output unit for one parsed file: the types unit when
/// `for_interfaces` is false, the interfaces unit when it is true. The
/// output is a pure function of the file and the options, so generating
/// the same file twice yields byte-identical text. A file that declares no
/// module still yields preamble and imports, with no namespace and no
/// entity code.
pub fn generate_from_slice_file(
    slice_file: &SliceFile,
    for_interfaces: bool,
    options: &CsOptions,
) -> (r: String)
    requires
        wf_file(*slice_file),
    ensures
        r@ == spec_generate_file(*slice_file, for_interfaces, *options),
{
    let mut generated_code = preamble(slice_file, options);
    if for_interfaces {
        generated_code.add_block(String::from_str("using IceRpc.Slice;\nusing ZeroC.Slice;"));
    } else {
        generated_code.add_block(String::from_str("using ZeroC.Slice;"));
        let mut attr = String::from_str("[assembly:Slice(\"");
        attr.append(slice_file.filename.as_str());
        attr.append(".slice\")]");
        proof {
            assert(attr@ =~= "[assembly:Slice(\""@ + slice_file.filename@ + ".slice\")]"@);
        }
        generated_code.add_block(attr);
    }
    match &slice_file.module {
        Some(m) => {
            let mut ns = String::from_str("namespace ");
            let d = dotted_name(&m.path);
            ns.append(d.as_str());
            ns.append(";");
            proof {
                assert(ns@ =~= "namespace "@ + dotted(m.path@) + ";"@);
            }
            generated_code.add_block(ns);
            let generator = Generator { for_interfaces };
            generator.visit_all(&mut generated_code, &m.entities);
        },
        None => {},
    }
    proof {
        assert(generated_code@ =~~= spec_file_fragments(*slice_file, for_interfaces, *options));
    }
    let mut out = generated_code.render();
    out.append("\n");
    out
}

} // verus!
