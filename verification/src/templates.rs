use vstd::prelude::*;
use vstd::string::StringExecFns;

verus! {

/// What every output begins with: the base record and the helper for naming a
/// class's function.
pub const PREAMBLE: &'static str =
    "#include <stddef.h>\n\ntypedef struct Object {\n\tsize_t size;\n} Object;\n\n#define METHOD(type, name) type##_##name\n\n";

/// Whether no construction can begin at the `k` first places of a text: at
/// none of them stands an `n` with `ew` behind it, nor an `n` so near the end
/// that what follows the text could complete it.
pub open spec fn begins_no_new(s: Seq<char>, k: int) -> bool
    decreases k,
{
    k <= 0 || (begins_no_new(s, k - 1) && (s[k - 1] != 'n' || (k + 1 < s.len() && !(s[k] == 'e'
        && s[k + 1] == 'w'))))
}

/// No construction begins in the preamble.
pub proof fn lemma_preamble_begins_no_new()
    ensures
        begins_no_new(PREAMBLE@, PREAMBLE@.len() as int),
        PREAMBLE@.len() == 112,
{
    reveal_strlit(
        "#include <stddef.h>\n\ntypedef struct Object {\n\tsize_t size;\n} Object;\n\n#define METHOD(type, name) type##_##name\n\n",
    );
    // Eight places at a time, from the start of the preamble to its end.
    reveal_with_fuel(begins_no_new, 9);
    assert(begins_no_new(PREAMBLE@, 8));
    assert(begins_no_new(PREAMBLE@, 16));
    assert(begins_no_new(PREAMBLE@, 24));
    assert(begins_no_new(PREAMBLE@, 32));
    assert(begins_no_new(PREAMBLE@, 40));
    assert(begins_no_new(PREAMBLE@, 48));
    assert(begins_no_new(PREAMBLE@, 56));
    assert(begins_no_new(PREAMBLE@, 64));
    assert(begins_no_new(PREAMBLE@, 72));
    assert(begins_no_new(PREAMBLE@, 80));
    assert(begins_no_new(PREAMBLE@, 88));
    assert(begins_no_new(PREAMBLE@, 96));
    assert(begins_no_new(PREAMBLE@, 104));
    assert(begins_no_new(PREAMBLE@, 112));
}

/// The record that a class becomes.
pub open spec fn class_text(name: Seq<char>, fields: Seq<char>) -> Seq<char> {
    "typedef struct "@ + name + " {"@ + fields + "} "@ + name + ";"@
}

/// The field through which a record holds its parent.
pub open spec fn super_field(parent: Seq<char>) -> Seq<char> {
    "\n\t"@ + parent + " super;\n"@
}

/// The function that a method becomes: it bears the class's name before its
/// own and takes the receiver before its own parameters.
pub open spec fn method_text(
    class: Seq<char>,
    ty: Seq<char>,
    name: Seq<char>,
    params: Seq<char>,
    body: Seq<char>,
) -> Seq<char> {
    ty + " "@ + class + "_"@ + name + "("@ + class + " *self; "@ + params + ") {"@ + body + "}"@
}

/// The call that a call through a receiver becomes: the receiver is the first
/// argument, and a separator follows it only where other arguments do.
pub open spec fn call_text(method: Seq<char>, receiver: Seq<char>, args: Seq<char>) -> Seq<char> {
    if args.len() > 0 {
        method + "("@ + receiver + ", "@ + args + ")"@
    } else {
        method + "("@ + receiver + ")"@
    }
}

/// The expression that a construction becomes.
pub open spec fn new_text(class: Seq<char>, args: Seq<char>) -> Seq<char> {
    "("@ + class + "){"@ + args + "}"@
}

/// The argument that hands a record one of its class's functions.
pub open spec fn method_ref(class: Seq<char>, method: Seq<char>) -> Seq<char> {
    class + "_"@ + method + ","@
}

/// Writes the record that a class becomes.
pub fn emit_class(name: &str, fields: &str) -> (out: String)
    ensures
        out@ == class_text(name@, fields@),
{
    let mut out = String::from_str("typedef struct ");
    out.append(name);
    out.append(" {");
    out.append(fields);
    out.append("} ");
    out.append(name);
    out.append(";");
    out
}

/// Writes the field through which a record holds its parent.
pub fn emit_super_field(parent: &str) -> (out: String)
    ensures
        out@ == super_field(parent@),
{
    let mut out = String::from_str("\n\t");
    out.append(parent);
    out.append(" super;\n");
    out
}

/// Writes the function that a method becomes.
pub fn emit_method(class: &str, ty: &str, name: &str, params: &str, body: &str) -> (out: String)
    ensures
        out@ == method_text(class@, ty@, name@, params@, body@),
{
    let mut out = String::from_str(ty);
    out.append(" ");
    out.append(class);
    out.append("_");
    out.append(name);
    out.append("(");
    out.append(class);
    out.append(" *self; ");
    out.append(params);
    out.append(") {");
    out.append(body);
    out.append("}");
    assert(out@ == method_text(class@, ty@, name@, params@, body@));
    out
}

/// Writes the call that a call through a receiver becomes.
pub fn emit_call(method: &str, receiver: &str, args: &str) -> (out: String)
    ensures
        out@ == call_text(method@, receiver@, args@),
{
    let mut out = String::from_str(method);
    out.append("(");
    out.append(receiver);
    if !args.is_empty() {
        out.append(", ");
        out.append(args);
    }
    out.append(")");
    out
}

/// Writes the expression that a construction becomes.
pub fn emit_new(class: &str, args: &str) -> (out: String)
    ensures
        out@ == new_text(class@, args@),
{
    let mut out = String::from_str("(");
    out.append(class);
    out.append("){");
    out.append(args);
    out.append("}");
    out
}

/// Writes the argument that hands a record one of its class's functions.
pub fn emit_method_ref(class: &str, method: &str) -> (out: String)
    ensures
        out@ == method_ref(class@, method@),
{
    let mut out = String::from_str(class);
    out.append("_");
    out.append(method);
    out.append(",");
    out
}

} // verus!
