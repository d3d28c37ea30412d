use crate::calls::{call_edits, call_faults, call_pattern, call_site, receiver_stop, rewrite_calls};
use crate::classes::{
    class_edits, class_faults, class_site, class_step, classes_done, classes_entered,
    duplicate_fault, entered, fields_text, name_stop, parent_name, rewrite_classes,
};
use crate::constructors::{
    augmented, lead_text, method_refs, new_args, new_edits, new_faults, new_site,
    rewrite_constructors, splice_point,
};
use crate::edits::{
    apply_edits, disjoint, law_each_edit_stands_in_place, law_edits_apart_do_not_disturb,
    lemma_edits_keep_what_is_before, rewritten, rewritten_behind, rewritten_from,
    rewritten_up_to, Edit,
};
use crate::issues::Fault;
use crate::methods::{
    body_text, method_edits, method_faults, method_pattern, method_site, method_step,
    methods_called, methods_noted, noted, params_text, rewrite_methods,
};
use crate::parser::{transpiled, Program};
use crate::scanner::{
    is_blank, lemma_scan_end_is, lemma_scan_start_is, stripped, trimmed, Stop,
};
use crate::shapes::{
    absent, call_source, class_source, free_of, lemma_absent_finds_nothing, lemma_call_site,
    lemma_class_site, lemma_method_site, lemma_new_site, lemma_only_found, lemma_regroup,
    lemma_regroup_tail, lemma_single_edit, lemma_sources_read, lemma_two_edits,
    lemma_two_found, method_source, new_source, nowhere_but, nowhere_but_two,
};
use crate::symbols::{
    declared, extends, lemma_extends_twice, lemma_methods_stay_unique, lemma_table_grows, lookup,
    methods_unique, registered, Class,
};
use crate::templates::{
    begins_no_new, call_text, class_text, lemma_preamble_begins_no_new, method_ref, method_text,
    new_text, super_field, PREAMBLE,
};
use crate::text::{
    find_all, lemma_found, lemma_found_apart, matches_at, replace_all, replace_from,
};
use vstd::prelude::*;

verus! {

/// The marks by which the constructs are found are not empty.
pub proof fn lemma_marks_are_not_empty(name: Seq<char>)
    ensures
        call_pattern(name).len() > 0,
        method_pattern(name).len() > 0,
        "class"@.len() > 0,
        "new"@.len() > 0,
{
    reveal_strlit("->");
    reveal_strlit("::");
    reveal_strlit("class");
    reveal_strlit("new");
}

/// A program in which no call of the method stands is left as it is.
pub proof fn lemma_no_calls(p: Program, method: Seq<char>)
    requires
        absent(p.text, call_pattern(method)),
    ensures
        rewrite_calls(p, method) == p,
{
    lemma_absent_finds_nothing(p.text, call_pattern(method), 0);
    assert(call_edits(p.text, method, Seq::<int>::empty()) == Seq::<Edit>::empty());
    assert(p.issues + Seq::<Fault>::empty() == p.issues);
}

/// A program in which no method of the class stands is left as it is.
pub proof fn lemma_no_methods(p: Program, class: Seq<char>)
    requires
        absent(p.text, method_pattern(class)),
    ensures
        rewrite_methods(p, class) == p,
{
    lemma_absent_finds_nothing(p.text, method_pattern(class), 0);
    assert(methods_noted(p, class, Seq::<int>::empty(), 0) == p);
    assert(method_edits(p.text, class, Seq::<int>::empty()) == Seq::<Edit>::empty());
    assert(p.issues + Seq::<Fault>::empty() == p.issues);
}

/// What was amiss at one place is what was amiss at the list of it alone,
/// and likewise at two places.
proof fn lemma_faults_of_few(s: Seq<char>, class: Seq<char>, i: int, j: int)
    ensures
        method_faults(s, class, seq![i]) == method_site(s, class, i).faults,
        method_faults(s, class, seq![i, j]) == method_site(s, class, i).faults + method_site(
            s,
            class,
            j,
        ).faults,
        class_faults(s, seq![i]) == class_site(s, i).faults,
        class_faults(s, seq![i, j]) == class_site(s, i).faults + class_site(s, j).faults,
        method_edits(s, class, seq![i]) == seq![method_site(s, class, i).edit],
        method_edits(s, class, seq![i, j]) == seq![
            method_site(s, class, i).edit,
            method_site(s, class, j).edit,
        ],
        class_edits(s, seq![i]) == seq![class_site(s, i).edit],
        class_edits(s, seq![i, j]) == seq![class_site(s, i).edit, class_site(s, j).edit],
{
    let one = seq![i];
    let two = seq![i, j];
    assert(one.drop_last() == Seq::<int>::empty());
    assert(two.drop_last() == one);
    assert(one.last() == i && two.last() == j);
    assert(method_faults(s, class, one.drop_last()) == Seq::<Fault>::empty());
    assert(class_faults(s, one.drop_last()) == Seq::<Fault>::empty());
    assert(Seq::<Fault>::empty() + method_site(s, class, i).faults == method_site(
        s,
        class,
        i,
    ).faults);
    assert(Seq::<Fault>::empty() + class_site(s, i).faults == class_site(s, i).faults);
    assert(method_faults(s, class, two) == method_faults(s, class, one) + method_site(
        s,
        class,
        j,
    ).faults);
    assert(class_faults(s, two) == class_faults(s, one) + class_site(s, j).faults);
}

/// Where the class has one method in the text, the method is noted for the
/// class and its calls are rewritten; where the class qualifier then stands
/// once in what that gave, the method is read there and its edit carried out.
pub proof fn lemma_one_method(p: Program, class: Seq<char>, i: int, j: int)
    requires
        find_all(p.text, method_pattern(class), 0) == seq![i],
        find_all(method_step(p, p.text, class, i).text, method_pattern(class), 0) == seq![j],
    ensures
        ({
            let called = method_step(p, p.text, class, i);
            rewrite_methods(p, class) == (Program {
                text: apply_edits(called.text, seq![method_site(called.text, class, j).edit]),
                table: called.table,
                issues: called.issues + method_site(called.text, class, j).faults,
            })
        }),
{
    let named = seq![i];
    let called = method_step(p, p.text, class, i);
    assert(methods_noted(p, class, named, 0) == p);
    assert(methods_noted(p, class, named, 1) == called);
    lemma_faults_of_few(called.text, class, j, j);
}

/// The same where the class has two methods in the text.
pub proof fn lemma_two_methods(
    p: Program,
    class: Seq<char>,
    i1: int,
    i2: int,
    j1: int,
    j2: int,
)
    requires
        find_all(p.text, method_pattern(class), 0) == seq![i1, i2],
        find_all(
            method_step(method_step(p, p.text, class, i1), p.text, class, i2).text,
            method_pattern(class),
            0,
        ) == seq![j1, j2],
    ensures
        ({
            let called = method_step(method_step(p, p.text, class, i1), p.text, class, i2);
            rewrite_methods(p, class) == (Program {
                text: apply_edits(
                    called.text,
                    seq![
                        method_site(called.text, class, j1).edit,
                        method_site(called.text, class, j2).edit,
                    ],
                ),
                table: called.table,
                issues: called.issues + (method_site(called.text, class, j1).faults + method_site(
                    called.text,
                    class,
                    j2,
                ).faults),
            })
        }),
{
    let named = seq![i1, i2];
    let first = method_step(p, p.text, class, i1);
    let called = method_step(first, p.text, class, i2);
    assert(methods_noted(p, class, named, 0) == p);
    assert(methods_noted(p, class, named, 1) == first);
    assert(methods_noted(p, class, named, 2) == called);
    lemma_faults_of_few(called.text, class, j1, j2);
}

/// Where the text has one class, the class is entered in the table and its
/// methods are rewritten; where the keyword then stands once in what that
/// gave, the class is read there, its edit is carried out, and the preamble
/// is put in front.
pub proof fn lemma_one_class(p: Program, i: int, j: int)
    requires
        find_all(p.text, "class"@, 0) == seq![i],
        find_all(class_step(p, p.text, i).text, "class"@, 0) == seq![j],
    ensures
        ({
            let done = class_step(p, p.text, i);
            rewrite_classes(p) == (Program {
                text: PREAMBLE@ + apply_edits(done.text, seq![class_site(done.text, j).edit]),
                table: done.table,
                issues: done.issues + class_site(done.text, j).faults,
            })
        }),
{
    let named = seq![i];
    let done = class_step(p, p.text, i);
    assert(classes_entered(p, named, 0) == p);
    assert(classes_entered(p, named, 1) == done);
    lemma_faults_of_few(done.text, Seq::empty(), j, j);
}

/// The same where the text has two classes.
pub proof fn lemma_two_classes(p: Program, i1: int, i2: int, j1: int, j2: int)
    requires
        find_all(p.text, "class"@, 0) == seq![i1, i2],
        find_all(class_step(class_step(p, p.text, i1), p.text, i2).text, "class"@, 0) == seq![
            j1,
            j2,
        ],
    ensures
        ({
            let done = class_step(class_step(p, p.text, i1), p.text, i2);
            rewrite_classes(p) == (Program {
                text: PREAMBLE@ + apply_edits(
                    done.text,
                    seq![class_site(done.text, j1).edit, class_site(done.text, j2).edit],
                ),
                table: done.table,
                issues: done.issues + (class_site(done.text, j1).faults + class_site(
                    done.text,
                    j2,
                ).faults),
            })
        }),
{
    let named = seq![i1, i2];
    let first = class_step(p, p.text, i1);
    let done = class_step(first, p.text, i2);
    assert(classes_entered(p, named, 0) == p);
    assert(classes_entered(p, named, 1) == first);
    assert(classes_entered(p, named, 2) == done);
    lemma_faults_of_few(done.text, Seq::empty(), j1, j2);
}

/// A call through a receiver becomes a call that takes the receiver first:
/// `x->m(a, b)` becomes `m(x, a, b)`, and `x->m()` becomes `m(x)`, with no
/// separator after the receiver; the table stays, and no issue comes up.
/// This holds of a call that is the only one of the method in the text, whose
/// receiver holds no space, line break or comma and follows one of them or
/// begins the text, and whose arguments hold no closing bracket.
pub proof fn law_call_takes_receiver(
    p: Program,
    pre: Seq<char>,
    receiver: Seq<char>,
    method: Seq<char>,
    args: Seq<char>,
    post: Seq<char>,
)
    requires
        p.text == pre + call_source(receiver, method, args) + post,
        pre.len() == 0 || receiver_stop().holds(pre.last()),
        free_of(receiver, receiver_stop()),
        free_of(args, Stop::At(')')),
        nowhere_but(p.text, call_pattern(method), (pre.len() + receiver.len()) as int),
    ensures
        rewrite_calls(p, method) == (Program {
            text: pre + call_text(method, receiver, args) + post,
            table: p.table,
            issues: p.issues,
        }),
        call_source(receiver, method, args) == receiver + "->"@ + method + "("@ + args + ")"@,
        args.len() == 0 ==> call_text(method, receiver, args) == method + "("@ + receiver + ")"@,
        args.len() > 0 ==> call_text(method, receiver, args) == method + "("@ + receiver + ", "@
            + args + ")"@,
{
    lemma_sources_read(receiver, method, args, args, args);
    let part = call_source(receiver, method, args);
    let s = p.text;
    let i = (pre.len() + receiver.len()) as int;
    let hits = seq![i];
    lemma_call_site(pre, receiver, method, args, post);
    lemma_marks_are_not_empty(method);
    lemma_only_found(s, call_pattern(method), i, 0);
    assert(call_edits(s, method, hits) == seq![call_site(s, method, i).edit]);
    assert(call_faults(s, method, hits) == Seq::<Fault>::empty()) by {
        assert(hits.drop_last() == Seq::<int>::empty());
        assert(hits.last() == i);
        assert(call_faults(s, method, hits.drop_last()) == Seq::<Fault>::empty());
    }
    assert(p.issues + Seq::<Fault>::empty() == p.issues);
    lemma_single_edit(pre, part, post, call_site(s, method, i).edit);
}

/// A method becomes a function that bears the class's name before its own
/// and takes the receiver before the method's parameters; in its body each
/// `super` is read through the receiver; the method is noted for the class,
/// and no issue comes up. This holds of a method that is the only one of the
/// class in the text and is called nowhere, whose return type begins its
/// line, whose name holds no opening bracket, whose parameters hold no
/// closing bracket, and whose body holds no closing brace.
pub proof fn law_method_becomes_function(
    p: Program,
    pre: Seq<char>,
    ty: Seq<char>,
    class: Seq<char>,
    name: Seq<char>,
    params: Seq<char>,
    body: Seq<char>,
    post: Seq<char>,
)
    requires
        p.text == pre + method_source(ty, class, name, params, body) + post,
        pre.len() == 0 || pre.last() == '\n',
        free_of(ty, Stop::At('\n')),
        free_of(name, Stop::At('(')),
        free_of(params, Stop::At(')')),
        free_of(body, Stop::At('}')),
        nowhere_but(p.text, method_pattern(class), (pre.len() + ty.len()) as int),
        absent(p.text, call_pattern(name)),
    ensures
        rewrite_methods(p, class) == (Program {
            text: pre + method_text(
                trimmed(class),
                trimmed(ty),
                trimmed(name),
                params_text(params),
                body_text(body),
            ) + post,
            table: registered(p.table, class, name),
            issues: p.issues,
        }),
        method_source(ty, class, name, params, body) == ty + class + "::"@ + name + "("@ + params
            + ") {"@ + body + "}"@,
{
    lemma_sources_read(ty, class, name, params, body);
    let part = method_source(ty, class, name, params, body);
    let i = (pre.len() + ty.len()) as int;
    lemma_method_site(pre, ty, class, name, params, body, post);
    lemma_marks_are_not_empty(class);
    lemma_only_found(p.text, method_pattern(class), i, 0);
    lemma_no_calls(noted(p, p.text, class, i), name);
    lemma_one_method(p, class, i, i);
    assert(p.issues + Seq::<Fault>::empty() == p.issues);
    lemma_single_edit(pre, part, post, method_site(p.text, class, i).edit);
}

/// A method and a call of it that stands after it are both rewritten, each
/// where it stood. This holds of a method that is the only one of the class
/// in the text, before and after the call is rewritten, and of a call that
/// is the only one of the method, each shaped as the laws on it ask, with a
/// space, line break or comma right before the receiver.
pub proof fn law_method_and_call_together(
    p: Program,
    pre: Seq<char>,
    ty: Seq<char>,
    class: Seq<char>,
    name: Seq<char>,
    params: Seq<char>,
    body: Seq<char>,
    mid: Seq<char>,
    receiver: Seq<char>,
    args: Seq<char>,
    post: Seq<char>,
)
    requires
        p.text == pre + method_source(ty, class, name, params, body) + mid + call_source(
            receiver,
            name,
            args,
        ) + post,
        pre.len() == 0 || pre.last() == '\n',
        free_of(ty, Stop::At('\n')),
        free_of(name, Stop::At('(')),
        free_of(params, Stop::At(')')),
        free_of(body, Stop::At('}')),
        mid.len() > 0 && receiver_stop().holds(mid.last()),
        free_of(receiver, receiver_stop()),
        free_of(args, Stop::At(')')),
        nowhere_but(p.text, method_pattern(class), (pre.len() + ty.len()) as int),
        nowhere_but(
            p.text,
            call_pattern(name),
            (pre.len() + method_source(ty, class, name, params, body).len() + mid.len()
                + receiver.len()) as int,
        ),
        nowhere_but(
            pre + method_source(ty, class, name, params, body) + mid + call_text(
                name,
                receiver,
                args,
            ) + post,
            method_pattern(class),
            (pre.len() + ty.len()) as int,
        ),
    ensures
        rewrite_methods(p, class) == (Program {
            text: pre + method_text(
                trimmed(class),
                trimmed(ty),
                trimmed(name),
                params_text(params),
                body_text(body),
            ) + mid + call_text(name, receiver, args) + post,
            table: registered(p.table, class, name),
            issues: p.issues,
        }),
{
    let def = method_source(ty, class, name, params, body);
    let call = call_source(receiver, name, args);
    let i = (pre.len() + ty.len()) as int;
    let rest = mid + call + post;
    let head = pre + def + mid;
    let called = call_text(name, receiver, args);
    let after = pre + def + mid + called + post;
    let site = method_site(after, class, i);
    lemma_regroup(pre, def, mid, call, post);
    lemma_regroup(pre, def, mid, called, post);
    lemma_regroup(pre, site.edit.text, mid, called, post);
    lemma_method_site(pre, ty, class, name, params, body, rest);
    lemma_method_site(pre, ty, class, name, params, body, mid + called + post);
    lemma_marks_are_not_empty(class);
    lemma_only_found(p.text, method_pattern(class), i, 0);
    lemma_only_found(after, method_pattern(class), i, 0);
    law_call_takes_receiver(noted(p, p.text, class, i), head, receiver, name, args, post);
    lemma_one_method(p, class, i, i);
    assert(p.issues + Seq::<Fault>::empty() == p.issues);
    lemma_single_edit(pre, def, mid + called + post, site.edit);
}

/// A class becomes a record that has the class's fields as they stand and,
/// where a token stands between the name and the opening brace, the parent's
/// record after them; the class is entered in the table, with an issue where
/// the table had the name already; the preamble stands in front of the text
/// once. This holds of a class that is the only one in the text and has no
/// methods there, whose name holds no space and no opening brace and is
/// followed by a space, whose token holds no opening brace, and whose fields
/// hold no closing brace.
pub proof fn law_class_becomes_record(
    p: Program,
    pre: Seq<char>,
    name: Seq<char>,
    token: Seq<char>,
    fields: Seq<char>,
    post: Seq<char>,
)
    requires
        p.text == pre + class_source(name, token, fields) + post,
        free_of(name, name_stop()),
        free_of(token, Stop::At('{')),
        free_of(fields, Stop::At('}')),
        nowhere_but(p.text, "class"@, pre.len() as int),
        absent(p.text, method_pattern(trimmed(name))),
    ensures
        rewrite_classes(p) == (Program {
            text: PREAMBLE@ + (pre + class_text(name, fields_text(fields, token)) + post),
            table: declared(p.table, name),
            issues: p.issues + duplicate_fault(p.table, name, pre.len() as int),
        }),
        class_source(name, token, fields) == "class "@ + name + " "@ + token + "{"@ + fields
            + "}"@,
{
    lemma_sources_read(name, token, fields, fields, fields);
    let part = class_source(name, token, fields);
    let i = pre.len() as int;
    lemma_class_site(pre, name, token, fields, post);
    lemma_marks_are_not_empty(name);
    lemma_only_found(p.text, "class"@, i, 0);
    let site = class_site(p.text, i);
    lemma_no_methods(entered(p, p.text, i), trimmed(name));
    lemma_one_class(p, i, i);
    let dup = duplicate_fault(p.table, name, i);
    assert(p.issues + dup + Seq::<Fault>::empty() == p.issues + dup);
    lemma_single_edit(pre, part, post, site.edit);
}

/// How a class without a parent reads: nothing stands between the space
/// after its name and the opening brace, and nothing is added to its fields.
proof fn lemma_plain_class_reads(name: Seq<char>, fields: Seq<char>)
    ensures
        class_source(name, Seq::empty(), fields) == "class "@ + name + " {"@ + fields + "}"@,
        free_of(Seq::<char>::empty(), Stop::At('{')),
        fields_text(fields, Seq::empty()) == fields,
{
    reveal(class_source);
    reveal_strlit(" ");
    reveal_strlit("{");
    reveal_strlit(" {");
    let token = Seq::<char>::empty();
    assert(("class "@ + name + " "@ + token + "{"@) =~= ("class "@ + name + " {"@));
    assert(trimmed(token).len() == 0);
}

/// A class without a parent becomes one record that holds the class's fields
/// unchanged, and the preamble stands in front of the text once. This holds
/// of a class that is the only one in the text and has no methods there,
/// whose name holds no space and no opening brace, and whose fields hold no
/// closing brace.
pub proof fn law_class_keeps_fields(
    p: Program,
    pre: Seq<char>,
    name: Seq<char>,
    fields: Seq<char>,
    post: Seq<char>,
)
    requires
        p.text == pre + class_source(name, Seq::empty(), fields) + post,
        free_of(name, name_stop()),
        free_of(fields, Stop::At('}')),
        nowhere_but(p.text, "class"@, pre.len() as int),
        absent(p.text, method_pattern(trimmed(name))),
    ensures
        rewrite_classes(p) == (Program {
            text: PREAMBLE@ + (pre + class_text(name, fields) + post),
            table: declared(p.table, name),
            issues: p.issues + duplicate_fault(p.table, name, pre.len() as int),
        }),
        class_source(name, Seq::empty(), fields) == "class "@ + name + " {"@ + fields + "}"@,
{
    lemma_plain_class_reads(name, fields);
    law_class_becomes_record(p, pre, name, Seq::empty(), fields, post);
}

/// A text whose first and last characters that meet `stop` stand at `from`
/// and right before `to` is stripped to what lies between them.
proof fn lemma_stripped_is(s: Seq<char>, stop: Stop, from: int, to: int)
    requires
        0 <= from < to <= s.len(),
        stop.holds(s[from]),
        stop.holds(s[to - 1]),
        forall|k: int| 0 <= k < from ==> !stop.holds(#[trigger] s[k]),
        forall|k: int| to <= k < s.len() ==> !stop.holds(#[trigger] s[k]),
    ensures
        stripped(s, stop) == s.subrange(from, to),
{
    lemma_scan_end_is(s, 0, stop, from);
    lemma_scan_start_is(s, s.len() as int, stop, to);
}

/// The characters of a parent's token: the mark, the name, and a space.
proof fn lemma_token_layout(parent: Seq<char>)
    requires
        parent.len() > 0,
    ensures
        ({
            let token = "+"@ + parent + " "@;
            let inner = parent + " "@;
            &&& token.len() == parent.len() + 2
            &&& token[0] == '+'
            &&& token[1] == parent.first()
            &&& token[token.len() - 2] == parent.last()
            &&& token[token.len() - 1] == ' '
            &&& token.subrange(1, token.len() as int) == inner
            &&& inner.len() == parent.len() + 1
            &&& inner[0] == parent.first()
            &&& inner[inner.len() - 2] == parent.last()
            &&& inner[inner.len() - 1] == ' '
            &&& inner.subrange(0, inner.len() - 1) == parent
        }),
{
    reveal_strlit("+");
    reveal_strlit(" ");
}

/// The parent's name is what stands between the mark and the space.
pub proof fn lemma_parent_name(parent: Seq<char>)
    requires
        parent.len() > 0,
        !is_blank(parent.first()) && parent.first() != '+',
        !is_blank(parent.last()) && parent.last() != '+',
    ensures
        parent_name("+"@ + parent + " "@) == parent,
        trimmed("+"@ + parent + " "@).len() > 0,
{
    let token = "+"@ + parent + " "@;
    let n = token.len() as int;
    let inner = parent + " "@;
    let m = inner.len() as int;
    lemma_token_layout(parent);
    assert(is_blank(' '));
    assert(!is_blank('+'));
    // The mark goes, the space stays.
    assert(stripped(token, Stop::Past('+')) == inner) by {
        lemma_stripped_is(token, Stop::Past('+'), 1, n);
    }
    assert(trimmed(inner) == parent) by {
        lemma_stripped_is(inner, Stop::PastBlank, 0, m - 1);
    }
    // The token itself is not blank.
    assert(trimmed(token).len() > 0) by {
        lemma_stripped_is(token, Stop::PastBlank, 0, n - 1);
    }
}

/// How a class with a parent reads: the mark and the parent's name stand
/// between the space after its name and the opening brace.
proof fn lemma_child_class_reads(name: Seq<char>, parent: Seq<char>, fields: Seq<char>)
    requires
        free_of(parent, Stop::At('{')),
    ensures
        class_source(name, "+"@ + parent + " "@, fields) == "class "@ + name + " +"@ + parent
            + " {"@ + fields + "}"@,
        free_of("+"@ + parent + " "@, Stop::At('{')),
        fields + super_field(parent) == fields + "\n\t"@ + parent + " super;\n"@,
{
    reveal(class_source);
    reveal_strlit(" ");
    reveal_strlit("+");
    reveal_strlit("{");
    reveal_strlit(" +");
    reveal_strlit(" {");
    let token = "+"@ + parent + " "@;
    assert(("class "@ + name + " "@ + token + "{"@) =~= ("class "@ + name + " +"@ + parent
        + " {"@));
    assert forall|k: int| 0 <= k < token.len() implies !Stop::At('{').holds(
        #[trigger] token[k],
    ) by {
        if 1 <= k <= parent.len() {
            assert(token[k] == parent[k - 1]);
        }
    }
    assert(fields + super_field(parent) =~= fields + "\n\t"@ + parent + " super;\n"@);
}

/// A class that names a parent `P` becomes a record that has, after the
/// class's own fields, exactly one more: a field of type `P`. This holds of
/// a class that is the only one in the text and has no methods there, whose
/// name holds no space and no opening brace, whose parent's name holds no
/// opening brace and neither begins nor ends with white space or a mark, and
/// whose fields hold no closing brace.
pub proof fn law_parent_adds_one_field(
    p: Program,
    pre: Seq<char>,
    name: Seq<char>,
    parent: Seq<char>,
    fields: Seq<char>,
    post: Seq<char>,
)
    requires
        p.text == pre + class_source(name, "+"@ + parent + " "@, fields) + post,
        free_of(name, name_stop()),
        free_of(parent, Stop::At('{')),
        free_of(fields, Stop::At('}')),
        parent.len() > 0,
        !is_blank(parent.first()) && parent.first() != '+',
        !is_blank(parent.last()) && parent.last() != '+',
        nowhere_but(p.text, "class"@, pre.len() as int),
        absent(p.text, method_pattern(trimmed(name))),
    ensures
        rewrite_classes(p) == (Program {
            text: PREAMBLE@ + (pre + class_text(name, fields + "\n\t"@ + parent + " super;\n"@)
                + post),
            table: declared(p.table, name),
            issues: p.issues + duplicate_fault(p.table, name, pre.len() as int),
        }),
        class_source(name, "+"@ + parent + " "@, fields) == "class "@ + name + " +"@ + parent
            + " {"@ + fields + "}"@,
{
    lemma_parent_name(parent);
    lemma_child_class_reads(name, parent, fields);
    law_class_becomes_record(p, pre, name, "+"@ + parent + " "@, fields, post);
}

/// The parent's name is what stands before the space, where no mark stands
/// before the name.
proof fn lemma_parent_name_unmarked(parent: Seq<char>)
    requires
        parent.len() > 0,
        !is_blank(parent.first()) && parent.first() != '+',
        !is_blank(parent.last()) && parent.last() != '+',
    ensures
        parent_name(parent + " "@) == parent,
        trimmed(parent + " "@).len() > 0,
{
    let inner = parent + " "@;
    let m = inner.len() as int;
    lemma_token_layout(parent);
    assert(is_blank(' '));
    assert(stripped(inner, Stop::Past('+')) == inner) by {
        lemma_stripped_is(inner, Stop::Past('+'), 0, m);
        assert(inner.subrange(0, m) == inner);
    }
    assert(trimmed(inner) == parent) by {
        lemma_stripped_is(inner, Stop::PastBlank, 0, m - 1);
    }
}

/// How a class with a parent that bears no mark reads.
proof fn lemma_unmarked_child_class_reads(name: Seq<char>, parent: Seq<char>, fields: Seq<char>)
    requires
        free_of(parent, Stop::At('{')),
    ensures
        class_source(name, parent + " "@, fields) == "class "@ + name + " "@ + parent + " {"@
            + fields + "}"@,
        free_of(parent + " "@, Stop::At('{')),
        fields + super_field(parent) == fields + "\n\t"@ + parent + " super;\n"@,
{
    reveal(class_source);
    reveal_strlit(" ");
    reveal_strlit("{");
    reveal_strlit(" {");
    let token = parent + " "@;
    assert(("class "@ + name + " "@ + token + "{"@) =~= ("class "@ + name + " "@ + parent
        + " {"@));
    assert forall|k: int| 0 <= k < token.len() implies !Stop::At('{').holds(
        #[trigger] token[k],
    ) by {
        if k < parent.len() {
            assert(token[k] == parent[k]);
        }
    }
    assert(fields + super_field(parent) =~= fields + "\n\t"@ + parent + " super;\n"@);
}

/// A class that names a parent `P` without the mark becomes the same record
/// as with it: after the class's own fields it has exactly one more, a field
/// of type `P`. This holds of a class as the law on a marked parent asks.
pub proof fn law_parent_without_mark_adds_one_field(
    p: Program,
    pre: Seq<char>,
    name: Seq<char>,
    parent: Seq<char>,
    fields: Seq<char>,
    post: Seq<char>,
)
    requires
        p.text == pre + class_source(name, parent + " "@, fields) + post,
        free_of(name, name_stop()),
        free_of(parent, Stop::At('{')),
        free_of(fields, Stop::At('}')),
        parent.len() > 0,
        !is_blank(parent.first()) && parent.first() != '+',
        !is_blank(parent.last()) && parent.last() != '+',
        nowhere_but(p.text, "class"@, pre.len() as int),
        absent(p.text, method_pattern(trimmed(name))),
    ensures
        rewrite_classes(p) == (Program {
            text: PREAMBLE@ + (pre + class_text(name, fields + "\n\t"@ + parent + " super;\n"@)
                + post),
            table: declared(p.table, name),
            issues: p.issues + duplicate_fault(p.table, name, pre.len() as int),
        }),
        class_source(name, parent + " "@, fields) == "class "@ + name + " "@ + parent + " {"@
            + fields + "}"@,
{
    lemma_parent_name_unmarked(parent);
    lemma_unmarked_child_class_reads(name, parent, fields);
    law_class_becomes_record(p, pre, name, parent + " "@, fields, post);
}

/// A call that stands before the definitions of two methods of a class, and
/// both methods, are rewritten each where it stands: the call becomes a call
/// that takes the receiver first, with or without arguments, both methods
/// become functions, though the text before them has changed its length, and
/// the class lists the two methods in their order. This holds where the call
/// is the only one of the first method and the second method is called
/// nowhere, where the class qualifier stands at the two definitions alone,
/// before and after the call is rewritten, and where each part is shaped as
/// the laws on it ask.
pub proof fn law_call_before_two_methods(
    p: Program,
    pre: Seq<char>,
    receiver: Seq<char>,
    args: Seq<char>,
    mid: Seq<char>,
    ty1: Seq<char>,
    class: Seq<char>,
    first: Seq<char>,
    params1: Seq<char>,
    body1: Seq<char>,
    gap: Seq<char>,
    ty2: Seq<char>,
    second: Seq<char>,
    params2: Seq<char>,
    body2: Seq<char>,
    post: Seq<char>,
)
    requires
        p.text == pre + call_source(receiver, first, args) + mid + method_source(
            ty1,
            class,
            first,
            params1,
            body1,
        ) + gap + method_source(ty2, class, second, params2, body2) + post,
        pre.len() == 0 || receiver_stop().holds(pre.last()),
        free_of(receiver, receiver_stop()),
        free_of(args, Stop::At(')')),
        mid.len() > 0 && mid.last() == '\n',
        free_of(ty1, Stop::At('\n')),
        free_of(first, Stop::At('(')),
        free_of(params1, Stop::At(')')),
        free_of(body1, Stop::At('}')),
        gap.len() > 0 && gap.last() == '\n',
        free_of(ty2, Stop::At('\n')),
        free_of(second, Stop::At('(')),
        free_of(params2, Stop::At(')')),
        free_of(body2, Stop::At('}')),
        nowhere_but(p.text, call_pattern(first), (pre.len() + receiver.len()) as int),
        nowhere_but_two(
            p.text,
            method_pattern(class),
            (pre.len() + call_source(receiver, first, args).len() + mid.len() + ty1.len()) as int,
            (pre.len() + call_source(receiver, first, args).len() + mid.len() + method_source(
                ty1,
                class,
                first,
                params1,
                body1,
            ).len() + gap.len() + ty2.len()) as int,
        ),
        absent(
            pre + call_text(first, receiver, args) + mid + method_source(
                ty1,
                class,
                first,
                params1,
                body1,
            ) + gap + method_source(ty2, class, second, params2, body2) + post,
            call_pattern(second),
        ),
        nowhere_but_two(
            pre + call_text(first, receiver, args) + mid + method_source(
                ty1,
                class,
                first,
                params1,
                body1,
            ) + gap + method_source(ty2, class, second, params2, body2) + post,
            method_pattern(class),
            (pre.len() + call_text(first, receiver, args).len() + mid.len() + ty1.len()) as int,
            (pre.len() + call_text(first, receiver, args).len() + mid.len() + method_source(
                ty1,
                class,
                first,
                params1,
                body1,
            ).len() + gap.len() + ty2.len()) as int,
        ),
    ensures
        rewrite_methods(p, class) == (Program {
            text: pre + call_text(first, receiver, args) + mid + method_text(
                trimmed(class),
                trimmed(ty1),
                trimmed(first),
                params_text(params1),
                body_text(body1),
            ) + gap + method_text(
                trimmed(class),
                trimmed(ty2),
                trimmed(second),
                params_text(params2),
                body_text(body2),
            ) + post,
            table: registered(registered(p.table, class, first), class, second),
            issues: p.issues,
        }),
{
    let call = call_source(receiver, first, args);
    let called = call_text(first, receiver, args);
    let def1 = method_source(ty1, class, first, params1, body1);
    let def2 = method_source(ty2, class, second, params2, body2);
    let pat = method_pattern(class);
    let head0 = pre + call + mid;
    let head1 = pre + called + mid;
    let after = head1 + def1 + gap + def2 + post;
    let i1 = (head0.len() + ty1.len()) as int;
    let i2 = (head0.len() + def1.len() + gap.len() + ty2.len()) as int;
    let j1 = (head1.len() + ty1.len()) as int;
    let j2 = (head1.len() + def1.len() + gap.len() + ty2.len()) as int;
    // How the two texts are put together.
    lemma_regroup_tail(pre, call, mid, def1, gap, def2, post);
    lemma_regroup_tail(pre, called, mid, def1, gap, def2, post);
    lemma_regroup(pre, call, mid, def1, gap);
    lemma_regroup(pre, called, mid, def1, gap);
    lemma_regroup(head0, def1, gap, def2, post);
    lemma_regroup(head1, def1, gap, def2, post);
    lemma_marks_are_not_empty(class);
    // The methods are named in the text at the start.
    lemma_method_site(head0, ty1, class, first, params1, body1, gap + def2 + post);
    lemma_method_site(head0 + def1 + gap, ty2, class, second, params2, body2, post);
    lemma_two_found(p.text, pat, i1, i2);
    // The call of the first is rewritten; the second is called nowhere.
    let one = method_step(p, p.text, class, i1);
    law_call_takes_receiver(
        noted(p, p.text, class, i1),
        pre,
        receiver,
        first,
        args,
        mid + def1 + gap + def2 + post,
    );
    assert(one.text == after);
    lemma_no_calls(noted(one, p.text, class, i2), second);
    // The methods are found again and read in what that gave.
    lemma_method_site(head1, ty1, class, first, params1, body1, gap + def2 + post);
    lemma_method_site(head1 + def1 + gap, ty2, class, second, params2, body2, post);
    lemma_two_found(after, pat, j1, j2);
    lemma_two_methods(p, class, i1, i2, j1, j2);
    assert(p.issues + (Seq::<Fault>::empty() + Seq::<Fault>::empty()) == p.issues);
    lemma_two_edits(
        head1,
        def1,
        gap,
        def2,
        post,
        method_site(after, class, j1).edit,
        method_site(after, class, j2).edit,
    );
}

/// Two classes, with a method of the first between them, are rewritten each
/// where it stands: both become records, though the text before the second
/// has changed its length, the method becomes a function, and the table has
/// the first class with its method and then the second. This holds where the
/// keyword stands at the two classes alone, before and after the method is
/// rewritten, where the first class has this method alone and the second has
/// none, where the method is called nowhere, and where each part is shaped as
/// the laws on it ask.
pub proof fn law_two_classes_and_a_method(
    p: Program,
    pre: Seq<char>,
    name1: Seq<char>,
    token1: Seq<char>,
    fields1: Seq<char>,
    mid: Seq<char>,
    ty: Seq<char>,
    method: Seq<char>,
    params: Seq<char>,
    body: Seq<char>,
    gap: Seq<char>,
    name2: Seq<char>,
    token2: Seq<char>,
    fields2: Seq<char>,
    post: Seq<char>,
)
    requires
        p.text == pre + class_source(name1, token1, fields1) + mid + method_source(
            ty,
            trimmed(name1),
            method,
            params,
            body,
        ) + gap + class_source(name2, token2, fields2) + post,
        free_of(name1, name_stop()),
        free_of(token1, Stop::At('{')),
        free_of(fields1, Stop::At('}')),
        mid.len() > 0 && mid.last() == '\n',
        free_of(ty, Stop::At('\n')),
        free_of(method, Stop::At('(')),
        free_of(params, Stop::At(')')),
        free_of(body, Stop::At('}')),
        free_of(name2, name_stop()),
        free_of(token2, Stop::At('{')),
        free_of(fields2, Stop::At('}')),
        nowhere_but_two(
            p.text,
            "class"@,
            pre.len() as int,
            (pre.len() + class_source(name1, token1, fields1).len() + mid.len() + method_source(
                ty,
                trimmed(name1),
                method,
                params,
                body,
            ).len() + gap.len()) as int,
        ),
        nowhere_but(
            p.text,
            method_pattern(trimmed(name1)),
            (pre.len() + class_source(name1, token1, fields1).len() + mid.len() + ty.len()) as int,
        ),
        absent(p.text, call_pattern(method)),
        absent(
            pre + class_source(name1, token1, fields1) + mid + method_text(
                trimmed(trimmed(name1)),
                trimmed(ty),
                trimmed(method),
                params_text(params),
                body_text(body),
            ) + gap + class_source(name2, token2, fields2) + post,
            method_pattern(trimmed(name2)),
        ),
        nowhere_but_two(
            pre + class_source(name1, token1, fields1) + mid + method_text(
                trimmed(trimmed(name1)),
                trimmed(ty),
                trimmed(method),
                params_text(params),
                body_text(body),
            ) + gap + class_source(name2, token2, fields2) + post,
            "class"@,
            pre.len() as int,
            (pre.len() + class_source(name1, token1, fields1).len() + mid.len() + method_text(
                trimmed(trimmed(name1)),
                trimmed(ty),
                trimmed(method),
                params_text(params),
                body_text(body),
            ).len() + gap.len()) as int,
        ),
    ensures
        rewrite_classes(p) == (Program {
            text: PREAMBLE@ + (pre + class_text(name1, fields_text(fields1, token1)) + mid
                + method_text(
                trimmed(trimmed(name1)),
                trimmed(ty),
                trimmed(method),
                params_text(params),
                body_text(body),
            ) + gap + class_text(name2, fields_text(fields2, token2)) + post),
            table: declared(registered(declared(p.table, name1), trimmed(name1), method), name2),
            issues: p.issues + duplicate_fault(p.table, name1, pre.len() as int)
                + duplicate_fault(
                registered(declared(p.table, name1), trimmed(name1), method),
                name2,
                (pre.len() + class_source(name1, token1, fields1).len() + mid.len()
                    + method_source(ty, trimmed(name1), method, params, body).len() + gap.len()) as int,
            ),
        }),
{
    let scope = trimmed(name1);
    let decl1 = class_source(name1, token1, fields1);
    let decl2 = class_source(name2, token2, fields2);
    let def = method_source(ty, scope, method, params, body);
    let function = method_text(
        trimmed(scope),
        trimmed(ty),
        trimmed(method),
        params_text(params),
        body_text(body),
    );
    let head = pre + decl1 + mid;
    let after = pre + decl1 + mid + function + gap + decl2 + post;
    let i1 = pre.len() as int;
    let i2 = (head.len() + def.len() + gap.len()) as int;
    let j2 = (head.len() + function.len() + gap.len()) as int;
    // How the two texts are put together.
    lemma_regroup(pre, decl1, mid, def, gap);
    lemma_regroup(pre, decl1, mid, function, gap);
    lemma_regroup(head, def, gap, decl2, post);
    lemma_regroup(head, function, gap, decl2, post);
    lemma_regroup_tail(pre, decl1, mid, def, gap, decl2, post);
    lemma_regroup_tail(pre, decl1, mid, function, gap, decl2, post);
    lemma_marks_are_not_empty(name1);
    // The classes are named in the text at the start.
    lemma_class_site(pre, name1, token1, fields1, mid + def + gap + decl2 + post);
    lemma_class_site(pre + decl1 + mid + def + gap, name2, token2, fields2, post);
    lemma_two_found(p.text, "class"@, i1, i2);
    // The method of the first is rewritten; the second has none.
    let begun = entered(p, p.text, i1);
    law_method_becomes_function(begun, head, ty, scope, method, params, body, gap + decl2 + post);
    let one = class_step(p, p.text, i1);
    assert(one.text == after);
    lemma_no_methods(entered(one, p.text, i2), trimmed(name2));
    // The classes are found again and read in what that gave.
    lemma_class_site(pre, name1, token1, fields1, mid + function + gap + decl2 + post);
    lemma_class_site(pre + decl1 + mid + function + gap, name2, token2, fields2, post);
    lemma_two_found(after, "class"@, i1, j2);
    lemma_two_classes(p, i1, i2, i1, j2);
    let done = class_step(one, p.text, i2);
    assert(done.issues + (Seq::<Fault>::empty() + Seq::<Fault>::empty()) == done.issues);
    let e1 = class_site(after, i1).edit;
    let e2 = class_site(after, j2).edit;
    lemma_two_edits(pre, decl1, mid + function + gap, decl2, post, e1, e2);
    lemma_regroup(pre, e1.text, mid, function, gap);
}

/// A construction becomes an expression that builds the record from the
/// arguments and the functions of the class: one for each method, in the
/// order in which the table lists them, whether the arguments are empty, a
/// plain list, or end in a braced list. Where the table has no entry of the
/// class, the arguments pass as they stand and the construction is noted.
/// This holds of a construction that is the only one in the text, whose class
/// name holds no opening bracket and whose arguments hold no closing bracket.
pub proof fn law_construction_lists_methods(
    p: Program,
    pre: Seq<char>,
    class: Seq<char>,
    args: Seq<char>,
    post: Seq<char>,
)
    requires
        p.text == pre + new_source(class, args) + post,
        free_of(class, Stop::At('(')),
        free_of(args, Stop::At(')')),
        nowhere_but(p.text, "new"@, pre.len() as int),
    ensures
        0 <= lookup(p.table, class) < p.table.len() ==> rewrite_constructors(p) == (Program {
            text: pre + new_text(class, augmented(args, p.table[lookup(p.table, class)])) + post,
            table: p.table,
            issues: p.issues,
        }),
        0 <= lookup(p.table, class) < p.table.len() && p.table[lookup(
            p.table,
            class,
        )].methods.len() > 0 ==> augmented(args, p.table[lookup(p.table, class)]) == args.subrange(
            0,
            splice_point(args),
        ) + lead_text(args) + method_refs(
            p.table[lookup(p.table, class)].name,
            p.table[lookup(p.table, class)].methods,
        ) + args.subrange(splice_point(args), args.len() as int),
        0 <= lookup(p.table, class) < p.table.len() && p.table[lookup(
            p.table,
            class,
        )].methods.len() == 0 ==> augmented(args, p.table[lookup(p.table, class)]) == args,
        !(0 <= lookup(p.table, class) < p.table.len()) ==> rewrite_constructors(p) == (Program {
            text: pre + new_text(class, args) + post,
            table: p.table,
            issues: p.issues.push(Fault::UnknownClass { at: pre.len() as int, name: class }),
        }),
        new_source(class, args) == "new "@ + class + "("@ + args + ")"@,
{
    lemma_sources_read(class, args, args, args, args);
    let part = new_source(class, args);
    let s = p.text;
    let i = pre.len() as int;
    let hits = seq![i];
    lemma_new_site(pre, class, args, post, p.table);
    lemma_marks_are_not_empty(class);
    lemma_only_found(s, "new"@, i, 0);
    let site = new_site(s, p.table, i);
    assert(new_edits(s, p.table, hits) == seq![site.edit]);
    assert(new_faults(s, p.table, hits) == site.faults) by {
        assert(hits.drop_last() == Seq::<int>::empty());
        assert(hits.last() == i);
        assert(new_faults(s, p.table, hits.drop_last()) == Seq::<Fault>::empty());
        assert(Seq::<Fault>::empty() + site.faults == site.faults);
    }
    assert(p.issues + Seq::<Fault>::empty() == p.issues);
    assert(p.issues + seq![Fault::UnknownClass { at: i, name: class }] == p.issues.push(
        Fault::UnknownClass { at: i, name: class },
    ));
    lemma_single_edit(pre, part, post, site.edit);
}

/// Whether a character can be the last of an argument: it is not white space
/// and neither a comma nor a brace or bracket.
pub open spec fn ends_argument(c: char) -> bool {
    !is_blank(c) && c != ',' && c != '{' && c != '(' && c != '}'
}

/// Behind arguments that end in an argument, the functions of the class are
/// arguments of their own: the arguments stay as they are, a separator
/// follows them, and the functions follow in the order of the table. This is
/// so whether the arguments hold a comma or not.
pub proof fn law_references_are_arguments_of_their_own(args: Seq<char>, class: Class)
    requires
        class.methods.len() > 0,
        args.len() > 0,
        ends_argument(args.last()),
    ensures
        augmented(args, class) == args + ", "@ + method_refs(class.name, class.methods),
{
    let n = args.len() as int;
    lemma_scan_start_is(args, n, Stop::PastBlank, n);
    assert(args.subrange(0, n) == args);
    assert(args.subrange(n, n) == Seq::<char>::empty());
    let front = args + ", "@ + method_refs(class.name, class.methods);
    assert(front + Seq::<char>::empty() == front);
}

/// Behind arguments that end in a comma, with or without white space after
/// it, the functions follow with no separator more; and where there are no
/// arguments the functions stand alone. A class without methods adds
/// nothing.
pub proof fn law_references_need_no_second_comma(
    head: Seq<char>,
    pad: Seq<char>,
    args: Seq<char>,
    class: Class,
)
    requires
        forall|k: int| 0 <= k < pad.len() ==> is_blank(#[trigger] pad[k]),
    ensures
        class.methods.len() > 0 ==> augmented(head + ","@ + pad, class) == head + ","@ + pad
            + method_refs(class.name, class.methods),
        class.methods.len() > 0 ==> augmented(Seq::empty(), class) == method_refs(
            class.name,
            class.methods,
        ),
        class.methods.len() == 0 ==> augmented(args, class) == args,
{
    let list = head + ","@ + pad;
    let n = list.len() as int;
    let refs = method_refs(class.name, class.methods);
    assert(list[head.len() as int] == ',' && list.len() == head.len() + 1 + pad.len()) by {
        reveal_strlit(",");
    }
    assert(!is_blank(','));
    assert(is_blank(' '));
    assert(list.last() != '}') by {
        if pad.len() > 0 {
            assert(list.last() == pad[pad.len() - 1]);
        }
    }
    assert forall|k: int| head.len() + 1 <= k < n implies !Stop::PastBlank.holds(
        #[trigger] list[k],
    ) by {
        assert(list[k] == pad[k - head.len() - 1]);
    }
    lemma_scan_start_is(list, n, Stop::PastBlank, (head.len() + 1) as int);
    assert(list.subrange(0, n) == list);
    assert(list.subrange(n, n) == Seq::<char>::empty());
    assert(list + Seq::<char>::empty() + refs + Seq::<char>::empty() == list + refs);
    let none = Seq::<char>::empty();
    assert(none.subrange(0, 0) == none);
    assert(none + none + refs + none == refs);
}

/// In arguments that are one braced list, the functions go in before the
/// closing brace, behind a separator where the list ends in an argument: what
/// the list held stays, in its order.
pub proof fn law_references_go_before_the_closing_brace(inner: Seq<char>, class: Class)
    requires
        class.methods.len() > 0,
        inner.len() > 0,
        ends_argument(inner.last()),
    ensures
        augmented("{"@ + inner + "}"@, class) == "{"@ + inner + ", "@ + method_refs(
            class.name,
            class.methods,
        ) + "}"@,
{
    let args = "{"@ + inner + "}"@;
    let n = args.len() as int;
    let refs = method_refs(class.name, class.methods);
    assert(n == inner.len() + 2 && args[0] == '{' && args[n - 1] == '}' && args[n - 2]
        == inner.last() && args.subrange(0, n - 1) == "{"@ + inner && args.subrange(n - 1, n)
        == "}"@) by {
        reveal_strlit("{");
        reveal_strlit("}");
    }
    assert(args.contains('{'));
    lemma_scan_start_is(args, n - 1, Stop::PastBlank, n - 1);
}

/// The functions of a class with two methods stand in the order of the
/// methods, each followed by a comma, a space between them.
pub proof fn law_two_methods_in_order(class: Seq<char>, first: Seq<char>, second: Seq<char>)
    ensures
        method_refs(class, seq![first, second]) == class + "_"@ + first + ","@ + " "@ + class
            + "_"@ + second + ","@,
{
    let both = seq![first, second];
    assert(both.drop_last() == seq![first]);
    assert(both.last() == second);
    assert(method_refs(class, seq![first]) == method_ref(class, first));
    assert(method_refs(class, both) == method_ref(class, first) + " "@ + method_ref(
        class,
        second,
    ));
}

/// A program in which no construction stands is left as it is.
pub proof fn law_without_new_nothing_changes(p: Program)
    requires
        absent(p.text, "new"@),
    ensures
        rewrite_constructors(p) == p,
{
    lemma_absent_finds_nothing(p.text, "new"@, 0);
    assert(new_edits(p.text, p.table, Seq::<int>::empty()) == Seq::<Edit>::empty());
    assert(p.issues + Seq::<Fault>::empty() == p.issues);
}

/// Once the constructions are rewritten and the keyword stands nowhere in
/// what came out, rewriting them again changes nothing.
pub proof fn law_constructions_settle(p: Program)
    requires
        absent(rewrite_constructors(p).text, "new"@),
    ensures
        rewrite_constructors(rewrite_constructors(p)) == rewrite_constructors(p),
{
    law_without_new_nothing_changes(rewrite_constructors(p));
}

/// Where the edits of a pass lie apart in the text that the pass reads, each
/// construct is rewritten where it stands and what lies between two of them
/// stays: the edits give what they give all at once. For methods and classes
/// the text is the one in which they are found again, after the calls and
/// the methods were rewritten.
pub proof fn law_sites_apart_are_rewritten_in_place(p: Program, name: Seq<char>)
    ensures
        disjoint(
            call_edits(p.text, name, find_all(p.text, call_pattern(name), 0)),
            p.text.len() as int,
        ) ==> rewrite_calls(p, name).text == rewritten(
            p.text,
            call_edits(p.text, name, find_all(p.text, call_pattern(name), 0)),
        ),
        disjoint(new_edits(p.text, p.table, find_all(p.text, "new"@, 0)), p.text.len() as int)
            ==> rewrite_constructors(p).text == rewritten(
            p.text,
            new_edits(p.text, p.table, find_all(p.text, "new"@, 0)),
        ),
        ({
            let called = methods_called(p, name);
            let edits = method_edits(
                called.text,
                name,
                find_all(called.text, method_pattern(name), 0),
            );
            disjoint(edits, called.text.len() as int) ==> rewrite_methods(p, name).text
                == rewritten(called.text, edits)
        }),
        ({
            let done = classes_done(p);
            let edits = class_edits(done.text, find_all(done.text, "class"@, 0));
            disjoint(edits, done.text.len() as int) ==> rewrite_classes(p).text == PREAMBLE@
                + rewritten(done.text, edits)
        }),
{
    let calls = call_edits(p.text, name, find_all(p.text, call_pattern(name), 0));
    if disjoint(calls, p.text.len() as int) {
        law_edits_apart_do_not_disturb(p.text, calls);
    }
    let news = new_edits(p.text, p.table, find_all(p.text, "new"@, 0));
    if disjoint(news, p.text.len() as int) {
        law_edits_apart_do_not_disturb(p.text, news);
    }
    let called = methods_called(p, name);
    let methods = method_edits(called.text, name, find_all(called.text, method_pattern(name), 0));
    if disjoint(methods, called.text.len() as int) {
        law_edits_apart_do_not_disturb(called.text, methods);
    }
    let done = classes_done(p);
    let classes = class_edits(done.text, find_all(done.text, "class"@, 0));
    if disjoint(classes, done.text.len() as int) {
        law_edits_apart_do_not_disturb(done.text, classes);
    }
}

/// Every call of the method that is shaped as a call, among however many the
/// text holds, has an edit that covers it and puts in its place the call
/// that takes the receiver first, with no separator where no arguments
/// follow; nothing is amiss at it. Where the calls lie apart, that call
/// stands in what comes out, between what the calls before it and the calls
/// behind it have become.
pub proof fn law_every_call_takes_receiver(
    p: Program,
    k: int,
    pre: Seq<char>,
    receiver: Seq<char>,
    method: Seq<char>,
    args: Seq<char>,
    post: Seq<char>,
)
    requires
        p.text == pre + call_source(receiver, method, args) + post,
        pre.len() == 0 || receiver_stop().holds(pre.last()),
        free_of(receiver, receiver_stop()),
        free_of(args, Stop::At(')')),
        0 <= k < find_all(p.text, call_pattern(method), 0).len(),
        find_all(p.text, call_pattern(method), 0)[k] == pre.len() + receiver.len(),
    ensures
        call_edits(p.text, method, find_all(p.text, call_pattern(method), 0))[k] == (Edit {
            start: pre.len() as int,
            end: (pre.len() + call_source(receiver, method, args).len()) as int,
            text: call_text(method, receiver, args),
        }),
        call_site(p.text, method, find_all(p.text, call_pattern(method), 0)[k]).faults
            == Seq::<Fault>::empty(),
        ({
            let edits = call_edits(p.text, method, find_all(p.text, call_pattern(method), 0));
            disjoint(edits, p.text.len() as int) ==> rewrite_calls(p, method).text
                == rewritten_up_to(p.text, edits, k) + call_text(method, receiver, args)
                + rewritten_behind(p.text, edits, k)
        }),
{
    lemma_call_site(pre, receiver, method, args, post);
    let edits = call_edits(p.text, method, find_all(p.text, call_pattern(method), 0));
    if disjoint(edits, p.text.len() as int) {
        law_edits_apart_do_not_disturb(p.text, edits);
        law_each_edit_stands_in_place(p.text, edits, k);
    }
}

/// Every construction that is shaped as one, among however many the text
/// holds, has an edit that covers it and puts in its place the expression
/// with the functions of its class, in the order of the table, or with the
/// arguments as they stand where the table does not have the class. Where
/// the constructions lie apart, that expression stands in what comes out,
/// between what those before it and those behind it have become.
pub proof fn law_every_construction_lists_methods(
    p: Program,
    k: int,
    pre: Seq<char>,
    class: Seq<char>,
    args: Seq<char>,
    post: Seq<char>,
)
    requires
        p.text == pre + new_source(class, args) + post,
        free_of(class, Stop::At('(')),
        free_of(args, Stop::At(')')),
        0 <= k < find_all(p.text, "new"@, 0).len(),
        find_all(p.text, "new"@, 0)[k] == pre.len(),
    ensures
        new_edits(p.text, p.table, find_all(p.text, "new"@, 0))[k] == (Edit {
            start: pre.len() as int,
            end: (pre.len() + new_source(class, args).len()) as int,
            text: new_text(class, new_args(args, class, p.table)),
        }),
        0 <= lookup(p.table, class) < p.table.len() ==> new_args(args, class, p.table)
            == augmented(args, p.table[lookup(p.table, class)]),
        !(0 <= lookup(p.table, class) < p.table.len()) ==> new_args(args, class, p.table) == args,
        ({
            let edits = new_edits(p.text, p.table, find_all(p.text, "new"@, 0));
            disjoint(edits, p.text.len() as int) ==> rewrite_constructors(p).text
                == rewritten_up_to(p.text, edits, k) + new_text(
                class,
                new_args(args, class, p.table),
            ) + rewritten_behind(p.text, edits, k)
        }),
{
    lemma_new_site(pre, class, args, post, p.table);
    let edits = new_edits(p.text, p.table, find_all(p.text, "new"@, 0));
    if disjoint(edits, p.text.len() as int) {
        law_edits_apart_do_not_disturb(p.text, edits);
        law_each_edit_stands_in_place(p.text, edits, k);
    }
}

/// Every method of the class that is shaped as one, among however many the
/// text holds when the methods are found again, has an edit that covers it
/// and puts in its place the function that takes the receiver first, with
/// each `super` of the body read through the receiver; nothing is amiss at
/// it. Where the methods lie apart, that function stands in what comes out,
/// between what the methods before it and those behind it have become.
pub proof fn law_every_method_becomes_function(
    p: Program,
    k: int,
    pre: Seq<char>,
    ty: Seq<char>,
    class: Seq<char>,
    name: Seq<char>,
    params: Seq<char>,
    body: Seq<char>,
    post: Seq<char>,
)
    requires
        methods_called(p, class).text == pre + method_source(ty, class, name, params, body)
            + post,
        pre.len() == 0 || pre.last() == '\n',
        free_of(ty, Stop::At('\n')),
        free_of(name, Stop::At('(')),
        free_of(params, Stop::At(')')),
        free_of(body, Stop::At('}')),
        0 <= k < find_all(methods_called(p, class).text, method_pattern(class), 0).len(),
        find_all(methods_called(p, class).text, method_pattern(class), 0)[k] == pre.len()
            + ty.len(),
    ensures
        method_edits(
            methods_called(p, class).text,
            class,
            find_all(methods_called(p, class).text, method_pattern(class), 0),
        )[k] == (Edit {
            start: pre.len() as int,
            end: (pre.len() + method_source(ty, class, name, params, body).len()) as int,
            text: method_text(
                trimmed(class),
                trimmed(ty),
                trimmed(name),
                params_text(params),
                body_text(body),
            ),
        }),
        method_site(
            methods_called(p, class).text,
            class,
            find_all(methods_called(p, class).text, method_pattern(class), 0)[k],
        ).faults == Seq::<Fault>::empty(),
        ({
            let text = methods_called(p, class).text;
            let edits = method_edits(text, class, find_all(text, method_pattern(class), 0));
            disjoint(edits, text.len() as int) ==> rewrite_methods(p, class).text
                == rewritten_up_to(text, edits, k) + method_text(
                trimmed(class),
                trimmed(ty),
                trimmed(name),
                params_text(params),
                body_text(body),
            ) + rewritten_behind(text, edits, k)
        }),
{
    lemma_method_site(pre, ty, class, name, params, body, post);
    let text = methods_called(p, class).text;
    let edits = method_edits(text, class, find_all(text, method_pattern(class), 0));
    if disjoint(edits, text.len() as int) {
        law_edits_apart_do_not_disturb(text, edits);
        law_each_edit_stands_in_place(text, edits, k);
    }
}

/// Every class that is shaped as one, among however many the text holds when
/// the classes are found again, has an edit that covers it and puts in its
/// place the record with the class's fields as they stand and, where the
/// class names a parent, one more field after them, of the parent's type;
/// nothing is amiss at it. Where the classes lie apart, that record stands in
/// what comes out, between what the classes before it and those behind it
/// have become.
pub proof fn law_every_class_becomes_record(
    p: Program,
    k: int,
    pre: Seq<char>,
    name: Seq<char>,
    token: Seq<char>,
    fields: Seq<char>,
    post: Seq<char>,
)
    requires
        classes_done(p).text == pre + class_source(name, token, fields) + post,
        free_of(name, name_stop()),
        free_of(token, Stop::At('{')),
        free_of(fields, Stop::At('}')),
        0 <= k < find_all(classes_done(p).text, "class"@, 0).len(),
        find_all(classes_done(p).text, "class"@, 0)[k] == pre.len(),
    ensures
        class_edits(classes_done(p).text, find_all(classes_done(p).text, "class"@, 0))[k] == (Edit {
            start: pre.len() as int,
            end: (pre.len() + class_source(name, token, fields).len()) as int,
            text: class_text(name, fields_text(fields, token)),
        }),
        class_site(classes_done(p).text, find_all(classes_done(p).text, "class"@, 0)[k]).faults
            == Seq::<Fault>::empty(),
        trimmed(token).len() == 0 ==> fields_text(fields, token) == fields,
        trimmed(token).len() > 0 ==> fields_text(fields, token) == fields + super_field(
            parent_name(token),
        ),
        ({
            let text = classes_done(p).text;
            let edits = class_edits(text, find_all(text, "class"@, 0));
            disjoint(edits, text.len() as int) ==> rewrite_classes(p).text == PREAMBLE@ + (
            rewritten_up_to(text, edits, k) + class_text(name, fields_text(fields, token))
                + rewritten_behind(text, edits, k))
        }),
{
    lemma_class_site(pre, name, token, fields, post);
    let text = classes_done(p).text;
    let edits = class_edits(text, find_all(text, "class"@, 0));
    if disjoint(edits, text.len() as int) {
        law_edits_apart_do_not_disturb(text, edits);
        law_each_edit_stands_in_place(text, edits, k);
    }
}

/// Where no construction can begin at the `k` first places of a text, the
/// keyword stands at none of them, whatever follows the text.
proof fn lemma_no_new_begins(s: Seq<char>, rest: Seq<char>, k: int)
    requires
        begins_no_new(s, k),
        k <= s.len(),
    ensures
        forall|i: int| 0 <= i < k ==> !matches_at(s + rest, "new"@, i),
    decreases k,
{
    if k > 0 {
        lemma_no_new_begins(s, rest, k - 1);
        let i = k - 1;
        if matches_at(s + rest, "new"@, i) {
            reveal_strlit("new");
            let found = (s + rest).subrange(i, i + 3);
            assert(found[0] == 'n' && found[1] == 'e' && found[2] == 'w');
            assert((s + rest)[i] == s[i]);
            assert((s + rest)[i + 1] == s[i + 1]);
            assert((s + rest)[i + 2] == s[i + 2]);
        }
    }
}

/// What comes out begins with the preamble, whatever the text was: the
/// classes are rewritten behind it, and no construction is found in it.
pub proof fn law_output_begins_with_preamble(p: Program)
    ensures
        PREAMBLE@.is_prefix_of(rewrite_classes(p).text),
        PREAMBLE@.is_prefix_of(transpiled(p).text),
{
    let q = rewrite_classes(p);
    let n = PREAMBLE@.len() as int;
    let body = q.text.subrange(n, q.text.len() as int);
    assert(q.text == PREAMBLE@ + body);
    let hits = find_all(q.text, "new"@, 0);
    let edits = new_edits(q.text, q.table, hits);
    lemma_preamble_begins_no_new();
    lemma_no_new_begins(PREAMBLE@, body, n);
    lemma_found(q.text, "new"@, 0);
    assert forall|k: int| 0 <= k < edits.len() implies n <= (#[trigger] edits[k]).start by {
        assert(matches_at(q.text, "new"@, hits[k]));
        assert(edits[k] == new_site(q.text, q.table, hits[k]).edit);
    }
    lemma_edits_keep_what_is_before(q.text, edits, n);
    assert(q.text.subrange(0, n) == PREAMBLE@);
}

/// The edits that put `with` in place of what is `width` characters wide at
/// each of the places.
pub open spec fn replacements(hits: Seq<int>, width: int, with: Seq<char>) -> Seq<Edit> {
    hits.map_values(|i: int| Edit { start: i, end: i + width, text: with })
}

/// An edit in front of a list does not count for what the later ones
/// rewrite.
proof fn lemma_rewritten_skips_first(
    s: Seq<char>,
    first: Edit,
    rest: Seq<Edit>,
    k: int,
    from: int,
)
    requires
        0 <= k,
    ensures
        rewritten_from(s, seq![first] + rest, k + 1, from) == rewritten_from(s, rest, k, from),
    decreases rest.len() - k,
{
    let all = seq![first] + rest;
    if k < rest.len() {
        assert(all[k + 1] == rest[k]);
        lemma_rewritten_skips_first(s, first, rest, k + 1, rest[k].end);
    }
}

/// From any place on, replacing is rewriting at each place where the pattern
/// is found.
proof fn lemma_replace_from(s: Seq<char>, pat: Seq<char>, with: Seq<char>, from: int)
    requires
        0 <= from <= s.len(),
        pat.len() > 0,
    ensures
        replace_from(s, pat, with, from) == rewritten_from(
            s,
            replacements(find_all(s, pat, from), pat.len() as int, with),
            0,
            from,
        ),
    decreases s.len() - from,
{
    let width = pat.len() as int;
    let hits = find_all(s, pat, from);
    let edits = replacements(hits, width, with);
    if from == s.len() {
        assert(s.subrange(from, s.len() as int) == Seq::<char>::empty());
    } else if matches_at(s, pat, from) {
        let later = find_all(s, pat, from + width);
        let first = Edit { start: from, end: from + width, text: with };
        assert(edits == seq![first] + replacements(later, width, with));
        lemma_replace_from(s, pat, with, from + width);
        lemma_rewritten_skips_first(s, first, replacements(later, width, with), 0, from + width);
        assert(s.subrange(from, from) + with == with);
    } else {
        lemma_replace_from(s, pat, with, from + 1);
        let later = find_all(s, pat, from + 1);
        if from + width > s.len() {
            assert(later == Seq::<int>::empty());
            assert(s.subrange(from, s.len() as int) == seq![s[from]] + s.subrange(
                from + 1,
                s.len() as int,
            ));
        } else {
            assert(hits == later);
            if later.len() == 0 {
                assert(s.subrange(from, s.len() as int) == seq![s[from]] + s.subrange(
                    from + 1,
                    s.len() as int,
                ));
            } else {
                lemma_found(s, pat, from + 1);
                let at = later[0];
                assert(edits[0].start == at);
                assert(s.subrange(from, at) == seq![s[from]] + s.subrange(from + 1, at));
                let tail = with + rewritten_from(s, edits, 1, at + width);
                assert((seq![s[from]] + s.subrange(from + 1, at)) + tail == seq![s[from]] + (
                s.subrange(from + 1, at) + tail));
                assert(rewritten_from(s, edits, 0, from) == s.subrange(from, at) + with
                    + rewritten_from(s, edits, 1, at + width));
                assert(rewritten_from(s, edits, 0, from + 1) == s.subrange(from + 1, at) + with
                    + rewritten_from(s, edits, 1, at + width));
                assert(s.subrange(from, at) + with + rewritten_from(s, edits, 1, at + width) == 
                    s.subrange(from, at) + tail);
                assert(s.subrange(from + 1, at) + with + rewritten_from(s, edits, 1, at + width)
                    == s.subrange(from + 1, at) + tail);
            }
        }
    }
}

/// Replacing changes the places where the pattern is found, each into the
/// same text, and nothing else: what lies between two of them stays.
pub proof fn law_replace_changes_the_matches_alone(
    s: Seq<char>,
    pat: Seq<char>,
    with: Seq<char>,
)
    requires
        pat.len() > 0,
    ensures
        replace_all(s, pat, with) == rewritten(
            s,
            replacements(find_all(s, pat, 0), pat.len() as int, with),
        ),
{
    lemma_replace_from(s, pat, with, 0);
}

/// Replacing is editing: one edit for each place where the pattern is found,
/// carried out like any other list of edits.
pub proof fn law_replace_is_editing(s: Seq<char>, pat: Seq<char>, with: Seq<char>)
    requires
        pat.len() > 0,
    ensures
        disjoint(replacements(find_all(s, pat, 0), pat.len() as int, with), s.len() as int),
        replace_all(s, pat, with) == apply_edits(
            s,
            replacements(find_all(s, pat, 0), pat.len() as int, with),
        ),
{
    let hits = find_all(s, pat, 0);
    let edits = replacements(hits, pat.len() as int, with);
    lemma_found(s, pat, 0);
    lemma_found_apart(s, pat, 0);
    assert forall|k: int| 0 <= k < edits.len() implies 0 <= (#[trigger] edits[k]).start
        <= edits[k].end <= s.len() by {
        assert(matches_at(s, pat, hits[k]));
    }
    assert forall|j: int, k: int| 0 <= j < k < edits.len() implies (#[trigger] edits[j]).end <= (
    #[trigger] edits[k]).start by {
        assert(hits[j] + pat.len() <= hits[k]);
    }
    law_edits_apart_do_not_disturb(s, edits);
    law_replace_changes_the_matches_alone(s, pat, with);
}

/// In a method's body each `super` is read through the receiver, and the rest
/// of the body stays as it is.
pub proof fn law_super_alone_changes(body: Seq<char>)
    ensures
        body_text(body) == rewritten(
            body,
            replacements(find_all(body, "super"@, 0), "super"@.len() as int, "self->super"@),
        ),
        absent(body, "super"@) ==> body_text(body) == body,
{
    reveal_strlit("super");
    law_replace_changes_the_matches_alone(body, "super"@, "self->super"@);
    if absent(body, "super"@) {
        lemma_absent_finds_nothing(body, "super"@, 0);
        assert(replacements(Seq::<int>::empty(), 5, "self->super"@) == Seq::<Edit>::empty());
        assert(body.subrange(0, body.len() as int) == body);
    }
}

/// What a list begins with, it begins with when more is put behind it.
proof fn lemma_prefix_grows(a: Seq<Fault>, b: Seq<Fault>, c: Seq<Fault>)
    requires
        a.is_prefix_of(b),
    ensures
        a.is_prefix_of(b + c),
        a.is_prefix_of(a),
{
    assert(a == b.subrange(0, a.len() as int));
    assert(a =~= (b + c).subrange(0, a.len() as int));
    assert(a =~= a.subrange(0, a.len() as int));
}

/// While the methods of a class are noted, the table loses nothing, no entry
/// comes to list a method twice, and the issues noted before stay first.
pub proof fn lemma_methods_noted_keep(start: Program, class: Seq<char>, hits: Seq<int>, n: nat)
    ensures
        extends(methods_noted(start, class, hits, n).table, start.table),
        methods_unique(start.table) ==> methods_unique(methods_noted(start, class, hits, n).table),
        start.issues.is_prefix_of(methods_noted(start, class, hits, n).issues),
    decreases n,
{
    if n == 0 || n > hits.len() {
        lemma_table_grows(start.table, class, class);
        lemma_prefix_grows(start.issues, start.issues, Seq::empty());
    } else {
        let prev = methods_noted(start, class, hits, (n - 1) as nat);
        let name = method_site(start.text, class, hits[n - 1]).name;
        lemma_methods_noted_keep(start, class, hits, (n - 1) as nat);
        lemma_table_grows(prev.table, class, name);
        lemma_extends_twice(registered(prev.table, class, name), prev.table, start.table);
        if methods_unique(start.table) {
            lemma_methods_stay_unique(prev.table, class, name);
        }
        lemma_prefix_grows(
            start.issues,
            prev.issues,
            call_faults(prev.text, name, find_all(prev.text, call_pattern(name), 0)),
        );
    }
}

/// Rewriting the methods of a class loses nothing of the table or the
/// issues.
pub proof fn lemma_methods_keep(p: Program, class: Seq<char>)
    ensures
        extends(rewrite_methods(p, class).table, p.table),
        methods_unique(p.table) ==> methods_unique(rewrite_methods(p, class).table),
        p.issues.is_prefix_of(rewrite_methods(p, class).issues),
{
    let named = find_all(p.text, method_pattern(class), 0);
    let called = methods_noted(p, class, named, named.len());
    lemma_methods_noted_keep(p, class, named, named.len());
    lemma_prefix_grows(
        p.issues,
        called.issues,
        method_faults(called.text, class, find_all(called.text, method_pattern(class), 0)),
    );
}

/// While the classes are entered, the table loses nothing and gains an entry
/// for each, no entry comes to list a method twice, and the issues noted
/// before stay first.
pub proof fn lemma_classes_entered_keep(start: Program, hits: Seq<int>, n: nat)
    ensures
        extends(classes_entered(start, hits, n).table, start.table),
        methods_unique(start.table) ==> methods_unique(classes_entered(start, hits, n).table),
        start.issues.is_prefix_of(classes_entered(start, hits, n).issues),
        n <= hits.len() ==> start.table.len() + n <= classes_entered(start, hits, n).table.len(),
    decreases n,
{
    if n == 0 || n > hits.len() {
        lemma_table_grows(start.table, Seq::empty(), Seq::empty());
        lemma_prefix_grows(start.issues, start.issues, Seq::empty());
    } else {
        let prev = classes_entered(start, hits, (n - 1) as nat);
        let name = class_site(start.text, hits[n - 1]).name;
        let begun = entered(prev, start.text, hits[n - 1]);
        let inner = rewrite_methods(begun, trimmed(name));
        lemma_classes_entered_keep(start, hits, (n - 1) as nat);
        lemma_table_grows(prev.table, name, name);
        lemma_methods_keep(begun, trimmed(name));
        lemma_extends_twice(inner.table, begun.table, prev.table);
        lemma_extends_twice(inner.table, prev.table, start.table);
        if methods_unique(start.table) {
            lemma_methods_stay_unique(prev.table, name, name);
        }
        lemma_prefix_grows(
            start.issues,
            prev.issues,
            duplicate_fault(prev.table, name, hits[n - 1]),
        );
        assert(start.issues.is_prefix_of(begun.issues));
        assert(begun.issues.is_prefix_of(inner.issues));
        assert(start.issues =~= inner.issues.subrange(0, start.issues.len() as int));
    }
}

/// The rewriting loses nothing: every entry of the table stays where it
/// was under its name, and its methods stay first in the order in which they
/// were met; where no entry listed a method twice, none does after; each
/// class that is found adds an entry; and the issues noted before stay first
/// in the list.
pub proof fn law_nothing_is_lost(p: Program, class: Seq<char>)
    ensures
        extends(rewrite_methods(p, class).table, p.table),
        extends(rewrite_classes(p).table, p.table),
        extends(transpiled(p).table, p.table),
        methods_unique(p.table) ==> methods_unique(rewrite_methods(p, class).table)
            && methods_unique(rewrite_classes(p).table) && methods_unique(transpiled(p).table),
        p.table.len() + find_all(p.text, "class"@, 0).len() <= rewrite_classes(p).table.len(),
        p.issues.is_prefix_of(rewrite_calls(p, class).issues),
        p.issues.is_prefix_of(rewrite_methods(p, class).issues),
        p.issues.is_prefix_of(rewrite_classes(p).issues),
        p.issues.is_prefix_of(rewrite_constructors(p).issues),
        p.issues.is_prefix_of(transpiled(p).issues),
{
    lemma_methods_keep(p, class);
    let named = find_all(p.text, "class"@, 0);
    let done = classes_entered(p, named, named.len());
    lemma_classes_entered_keep(p, named, named.len());
    lemma_prefix_grows(
        p.issues,
        done.issues,
        class_faults(done.text, find_all(done.text, "class"@, 0)),
    );
    lemma_prefix_grows(
        p.issues,
        p.issues,
        call_faults(p.text, class, find_all(p.text, call_pattern(class), 0)),
    );
    lemma_prefix_grows(
        p.issues,
        p.issues,
        new_faults(p.text, p.table, find_all(p.text, "new"@, 0)),
    );
    let q = rewrite_classes(p);
    lemma_prefix_grows(
        p.issues,
        q.issues,
        new_faults(q.text, q.table, find_all(q.text, "new"@, 0)),
    );
}

} // verus!
