//! Small verified text helpers shared by the generators: decimal rendering,
//! dotted name paths, and the fixed IDL-to-host-language type mapping.
use vstd::prelude::*;

use crate::ast::Primitive;
use crate::ast::TypeRef;

verus! {

pub open spec fn dec_digit(d: u64) -> Seq<char> {
    if d == 0 {
        "0"@
    } else if d == 1 {
        "1"@
    } else if d == 2 {
        "2"@
    } else if d == 3 {
        "3"@
    } else if d == 4 {
        "4"@
    } else if d == 5 {
        "5"@
    } else if d == 6 {
        "6"@
    } else if d == 7 {
        "7"@
    } else if d == 8 {
        "8"@
    } else {
        "9"@
    }
}

/// The usual decimal rendering of `n`, most significant digit first,
/// without leading zeros (except for `n == 0` itself).
pub open spec fn dec_rep(n: u64) -> Seq<char>
    decreases n,
{
    if n < 10 {
        dec_digit(n)
    } else {
        dec_rep(n / 10) + dec_digit(n % 10)
    }
}

fn dec_digit_string(d: u64) -> (c: &'static str)
    requires
        d < 10,
    ensures
        c@ == dec_digit(d),
{
    if d == 0 {
        "0"
    } else if d == 1 {
        "1"
    } else if d == 2 {
        "2"
    } else if d == 3 {
        "3"
    } else if d == 4 {
        "4"
    } else if d == 5 {
        "5"
    } else if d == 6 {
        "6"
    } else if d == 7 {
        "7"
    } else if d == 8 {
        "8"
    } else {
        "9"
    }
}

/// Renders `n` in decimal.
pub fn dec_string(n: u64) -> (r: String)
    ensures
        r@ == dec_rep(n),
    decreases n,
{
    if n < 10 {
        String::from_str(dec_digit_string(n))
    } else {
        let mut s = dec_string(n / 10);
        s.append(dec_digit_string(n % 10));
        s
    }
}

/// The parts of a module path joined with `.` separators; the namespace
/// name of a module.
pub open spec fn dotted(parts: Seq<String>) -> Seq<char>
    decreases parts.len(),
{
    if parts.len() == 0 {
        Seq::empty()
    } else if parts.len() == 1 {
        parts[0]@
    } else {
        dotted(parts.drop_last()) + "."@ + parts.last()@
    }
}

/// Joins the parts of a module path with `.` into a namespace name.
pub fn dotted_name(parts: &Vec<String>) -> (r: String)
    ensures
        r@ == dotted(parts@),
{
    let mut r = String::new();
    let mut i: usize = 0;
    while i < parts.len()
        invariant
            i <= parts@.len(),
            r@ == dotted(parts@.take(i as int)),
        decreases parts@.len() - i,
    {
        if i > 0 {
            r.append(".");
        }
        r.append(parts[i].as_str());
        proof {
            assert(parts@.take(i + 1).drop_last() =~= parts@.take(i as int));
            assert(parts@.take(i + 1).last() == parts@[i as int]);
            if i == 0 {
                assert(r@ =~= dotted(parts@.take(i + 1)));
            }
        }
        i = i + 1;
    }
    proof {
        assert(parts@.take(parts@.len() as int) =~= parts@);
    }
    r
}

/// The fixed mapping from an IDL type reference to the host-language type:
/// primitives map to primitives, sequences to an ordered-collection type,
/// dictionaries to a key-unique-collection type, optionals to a nullable
/// wrapper, and a named reference to the referenced type's generated name.
pub open spec fn cs_type(t: TypeRef) -> Seq<char>
    decreases t,
{
    match t {
        TypeRef::Prim(Primitive::Bool) => "bool"@,
        TypeRef::Prim(Primitive::Int32) => "int"@,
        TypeRef::Prim(Primitive::Str) => "string"@,
        TypeRef::Sequence(e) => "global::System.Collections.Generic.IList<"@ + cs_type(*e)
            + ">"@,
        TypeRef::Dictionary(k, v) => "global::System.Collections.Generic.IDictionary<"@ + cs_type(
            *k,
        ) + ", "@ + cs_type(*v) + ">"@,
        TypeRef::Optional(e) => cs_type(*e) + "?"@,
        TypeRef::Named(n) => n@,
    }
}

/// Renders the host-language type for a type reference.
pub fn cs_type_string(t: &TypeRef) -> (r: String)
    ensures
        r@ == cs_type(*t),
    decreases t,
{
    match t {
        TypeRef::Prim(Primitive::Bool) => String::from_str("bool"),
        TypeRef::Prim(Primitive::Int32) => String::from_str("int"),
        TypeRef::Prim(Primitive::Str) => String::from_str("string"),
        TypeRef::Sequence(e) => {
            let mut r = String::from_str("global::System.Collections.Generic.IList<");
            let inner = cs_type_string(&**e);
            r.append(inner.as_str());
            r.append(">");
            r
        },
        TypeRef::Dictionary(k, v) => {
            let mut r = String::from_str("global::System.Collections.Generic.IDictionary<");
            let ks = cs_type_string(&**k);
            r.append(ks.as_str());
            r.append(", ");
            let vs = cs_type_string(&**v);
            r.append(vs.as_str());
            r.append(">");
            r
        },
        TypeRef::Optional(e) => {
            let mut r = cs_type_string(&**e);
            r.append("?");
            r
        },
        TypeRef::Named(n) => n.clone(),
    }
}

} // verus!
