use crate::calls::{call_pattern, call_site, receiver_stop, CallSite};
use crate::classes::{class_site, fields_text, name_stop, ClassSite};
use crate::constructors::{new_args, new_site, NewSite};
use crate::issues::{fault_if, Fault};
use crate::edits::{apply_edits, spliced, Edit};
use crate::methods::{body_text, method_pattern, method_site, params_text, MethodSite};
use crate::scanner::{
    cursor_after, lemma_scan_end_is, lemma_scan_start_is, scan_end, scan_start, scanned,
    scanned_back, step, stopped, trimmed, Stop,
};
use crate::symbols::{lookup, Class};
use crate::templates::{call_text, class_text, method_text, new_text};
use crate::text::{find_all, matches_at};
use vstd::prelude::*;

verus! {

/// Whether no character of the text meets `stop`.
pub open spec fn free_of(text: Seq<char>, stop: Stop) -> bool {
    forall|k: int| 0 <= k < text.len() ==> !stop.holds(#[trigger] text[k])
}

/// Whether `pat` stands nowhere in the text.
pub open spec fn absent(s: Seq<char>, pat: Seq<char>) -> bool {
    forall|i: int| !matches_at(s, pat, i)
}

/// Whether `pat` stands nowhere in the text but at `i`.
pub open spec fn nowhere_but(s: Seq<char>, pat: Seq<char>, i: int) -> bool {
    forall|j: int| matches_at(s, pat, j) ==> j == i
}

/// Whether `pat` stands nowhere in the text but at `i` and at `j`.
pub open spec fn nowhere_but_two(s: Seq<char>, pat: Seq<char>, i: int, j: int) -> bool {
    forall|k: int| matches_at(s, pat, k) ==> k == i || k == j
}

/// A call through a receiver, as it stands in a source text.
#[verifier::opaque]
pub open spec fn call_source(receiver: Seq<char>, method: Seq<char>, args: Seq<char>) -> Seq<char> {
    receiver + "->"@ + method + "("@ + args + ")"@
}

/// A method's definition, as it stands in a source text.
#[verifier::opaque]
pub open spec fn method_source(
    ty: Seq<char>,
    class: Seq<char>,
    name: Seq<char>,
    params: Seq<char>,
    body: Seq<char>,
) -> Seq<char> {
    ty + class + "::"@ + name + "("@ + params + ") {"@ + body + "}"@
}

/// A class's declaration, as it stands in a source text: `token` is what
/// stands between the space after the name and the opening brace.
#[verifier::opaque]
pub open spec fn class_source(name: Seq<char>, token: Seq<char>, fields: Seq<char>) -> Seq<char> {
    "class "@ + name + " "@ + token + "{"@ + fields + "}"@
}

/// A construction, as it stands in a source text.
#[verifier::opaque]
pub open spec fn new_source(class: Seq<char>, args: Seq<char>) -> Seq<char> {
    "new "@ + class + "("@ + args + ")"@
}

/// How the four constructs read in a source text.
pub proof fn lemma_sources_read(
    a: Seq<char>,
    b: Seq<char>,
    c: Seq<char>,
    d: Seq<char>,
    e: Seq<char>,
)
    ensures
        call_source(a, b, c) == a + "->"@ + b + "("@ + c + ")"@,
        method_source(a, b, c, d, e) == a + b + "::"@ + c + "("@ + d + ") {"@ + e + "}"@,
        class_source(a, b, c) == "class "@ + a + " "@ + b + "{"@ + c + "}"@,
        new_source(a, b) == "new "@ + a + "("@ + b + ")"@,
{
    reveal(call_source);
    reveal(method_source);
    reveal(class_source);
    reveal(new_source);
}

/// A search for what stands nowhere finds nothing.
pub proof fn lemma_absent_finds_nothing(s: Seq<char>, pat: Seq<char>, from: int)
    requires
        absent(s, pat),
    ensures
        find_all(s, pat, from) == Seq::<int>::empty(),
    decreases s.len() - from,
{
    if !(pat.len() == 0 || from < 0 || from + pat.len() > s.len()) {
        lemma_absent_finds_nothing(s, pat, from + 1);
    }
}

/// A search from a place after which the pattern stands nowhere finds
/// nothing.
pub proof fn lemma_none_later(s: Seq<char>, pat: Seq<char>, from: int)
    requires
        forall|j: int| j >= from ==> !matches_at(s, pat, j),
    ensures
        find_all(s, pat, from) == Seq::<int>::empty(),
    decreases s.len() - from,
{
    if !(pat.len() == 0 || from < 0 || from + pat.len() > s.len()) {
        lemma_none_later(s, pat, from + 1);
    }
}

/// A search from a place before the only one where the pattern stands finds
/// that one.
pub proof fn lemma_only_found(s: Seq<char>, pat: Seq<char>, i: int, from: int)
    requires
        pat.len() > 0,
        matches_at(s, pat, i),
        nowhere_but(s, pat, i),
        0 <= from <= i,
    ensures
        find_all(s, pat, from) == seq![i],
    decreases i - from,
{
    if from < i {
        lemma_only_found(s, pat, i, from + 1);
    } else {
        lemma_none_later(s, pat, i + pat.len());
        assert(seq![i] + Seq::<int>::empty() == seq![i]);
    }
}

/// A search from a place before the first one where the pattern stands finds
/// that one, and then what a search behind it finds.
pub proof fn lemma_first_found(s: Seq<char>, pat: Seq<char>, i: int, from: int)
    requires
        pat.len() > 0,
        matches_at(s, pat, i),
        0 <= from <= i,
        forall|k: int| from <= k < i ==> !matches_at(s, pat, k),
    ensures
        find_all(s, pat, from) == seq![i] + find_all(s, pat, i + pat.len()),
    decreases i - from,
{
    if from < i {
        lemma_first_found(s, pat, i, from + 1);
    }
}

/// A search finds the two places where the pattern stands, where it stands
/// nowhere else and the first has ended where the second begins.
pub proof fn lemma_two_found(s: Seq<char>, pat: Seq<char>, i: int, j: int)
    requires
        pat.len() > 0,
        matches_at(s, pat, i),
        matches_at(s, pat, j),
        i + pat.len() <= j,
        nowhere_but_two(s, pat, i, j),
    ensures
        find_all(s, pat, 0) == seq![i, j],
{
    lemma_first_found(s, pat, i, 0);
    lemma_first_found(s, pat, j, i + pat.len());
    lemma_none_later(s, pat, j + pat.len());
    assert(seq![i] + (seq![j] + Seq::<int>::empty()) =~= seq![i, j]);
}

/// Seven pieces in a row are the first two and then the other five.
pub proof fn lemma_regroup_tail(
    a: Seq<char>,
    b: Seq<char>,
    c: Seq<char>,
    d: Seq<char>,
    e: Seq<char>,
    f: Seq<char>,
    g: Seq<char>,
)
    ensures
        a + b + c + d + e + f + g == a + b + (c + d + e + f + g),
{
    assert(a + b + c + d + e + f + g =~= a + b + (c + d + e + f + g));
}

/// Two edits that cover two parts of the text, one behind the other, put
/// their texts in the place of the parts.
pub proof fn lemma_two_edits(
    pre: Seq<char>,
    first: Seq<char>,
    mid: Seq<char>,
    second: Seq<char>,
    post: Seq<char>,
    e1: Edit,
    e2: Edit,
)
    requires
        e1.start == pre.len(),
        e1.end == pre.len() + first.len(),
        e2.start == pre.len() + first.len() + mid.len(),
        e2.end == pre.len() + first.len() + mid.len() + second.len(),
    ensures
        apply_edits(pre + first + mid + second + post, seq![e1, e2]) == pre + e1.text + mid
            + e2.text + post,
{
    let s = pre + first + mid + second + post;
    let list = seq![e1, e2];
    let head = pre + first + mid;
    assert(list.last() == e2);
    assert(list.drop_last() == seq![e1]);
    assert(spliced(s, e2) == head + e2.text + post) by {
        assert(s.subrange(0, e2.start) == head);
        assert(s.subrange(e2.end, s.len() as int) == post);
    }
    lemma_regroup(pre, first, mid, e2.text, post);
    lemma_single_edit(pre, first, mid + e2.text + post, e1);
    lemma_regroup(pre, e1.text, mid, e2.text, post);
}

/// A scan that starts where a piece of text free of stops begins, and that
/// meets a stop or the end of the text right after the piece, yields the
/// piece.
pub proof fn lemma_scan_yields(s: Seq<char>, from: int, piece: Seq<char>, skip: int, stop: Stop)
    requires
        0 <= from,
        from + piece.len() <= s.len(),
        s.subrange(from, from + piece.len()) == piece,
        free_of(piece, stop),
        from + piece.len() < s.len() ==> stop.holds(s[from + piece.len()]),
    ensures
        scan_end(s, from, stop) == from + piece.len(),
        scanned(s, from, stop) == piece,
        cursor_after(s, from, skip, stop) == step(s.len() as int, from + piece.len(), skip),
        stopped(s, from, stop) == (from + piece.len() < s.len()),
{
    let end = from + piece.len();
    assert forall|k: int| from <= k < end implies !stop.holds(#[trigger] s[k]) by {
        assert(s[k] == piece[k - from]);
    }
    lemma_scan_end_is(s, from, stop, end);
}

/// A scan to the left that starts where a piece of text free of stops ends,
/// and that meets a stop or the start of the text right before the piece,
/// yields the piece.
pub proof fn lemma_scan_back_yields(s: Seq<char>, to: int, piece: Seq<char>, stop: Stop)
    requires
        to <= s.len(),
        0 <= to - piece.len(),
        s.subrange(to - piece.len(), to) == piece,
        free_of(piece, stop),
        to - piece.len() > 0 ==> stop.holds(s[to - piece.len() - 1]),
    ensures
        scan_start(s, to, stop) == to - piece.len(),
        scanned_back(s, to, stop) == piece,
{
    let start = to - piece.len();
    assert forall|k: int| start <= k < to implies !stop.holds(#[trigger] s[k]) by {
        assert(s[k] == piece[k - start]);
    }
    lemma_scan_start_is(s, to, stop, start);
}

/// What stands in a part of a text stands in the text, as far to the right
/// as what comes before the part is long.
pub proof fn lemma_within(pre: Seq<char>, whole: Seq<char>, post: Seq<char>, a: int, b: int)
    requires
        0 <= a <= b <= whole.len(),
    ensures
        (pre + whole + post).subrange(pre.len() + a, pre.len() + b) == whole.subrange(a, b),
        b < whole.len() ==> (pre + whole + post)[pre.len() + b] == whole[b],
        a > 0 ==> (pre + whole + post)[pre.len() + a - 1] == whole[a - 1],
        a == 0 && pre.len() > 0 ==> (pre + whole + post)[pre.len() - 1] == pre.last(),
{
}

/// Five pieces in a row are the first two and then the other three; the first
/// three end as the third does.
pub proof fn lemma_regroup(
    a: Seq<char>,
    b: Seq<char>,
    c: Seq<char>,
    d: Seq<char>,
    e: Seq<char>,
)
    ensures
        a + b + c + d + e == a + b + (c + d + e),
        c.len() > 0 ==> (a + b + c).last() == c.last(),
        (a + b + c).len() == a.len() + b.len() + c.len(),
{
    assert(a + b + c + d + e =~= a + b + (c + d + e));
}

/// One edit that covers a part of the text puts its own text between what
/// stands before the part and what stands after it.
pub proof fn lemma_single_edit(pre: Seq<char>, part: Seq<char>, post: Seq<char>, e: Edit)
    requires
        e.start == pre.len(),
        e.end == pre.len() + part.len(),
    ensures
        apply_edits(pre + part + post, seq![e]) == pre + e.text + post,
{
    let s = pre + part + post;
    let list = seq![e];
    assert(list.last() == e);
    assert(list.drop_last() == Seq::<Edit>::empty());
    assert(apply_edits(spliced(s, e), list.drop_last()) == spliced(s, e));
    assert(s.subrange(0, e.start) == pre);
    assert(s.subrange(e.end, s.len() as int) == post);
}

/// A scan over a piece of text that is free of stops and has a stop right
/// behind it yields the piece and leaves the cursor `skip` characters behind
/// its end, where that is within the text.
proof fn lemma_scan_step(s: Seq<char>, from: int, piece: Seq<char>, skip: int, stop: Stop)
    requires
        0 <= from,
        0 <= skip,
        from + piece.len() < s.len(),
        from + piece.len() + skip <= s.len(),
        s.subrange(from, from + piece.len()) == piece,
        free_of(piece, stop),
        stop.holds(s[from + piece.len()]),
    ensures
        scanned(s, from, stop) == piece,
        cursor_after(s, from, skip, stop) == from + piece.len() + skip,
        stopped(s, from, stop),
{
    lemma_scan_yields(s, from, piece, skip, stop);
}

/// Where the parts of a call stand in a text that holds it.
proof fn lemma_call_placed(
    pre: Seq<char>,
    receiver: Seq<char>,
    method: Seq<char>,
    args: Seq<char>,
    post: Seq<char>,
)
    ensures
        ({
            let s = pre + call_source(receiver, method, args) + post;
            let start = pre.len() as int;
            let i = start + receiver.len();
            let args_from = i + 2 + method.len() + 1;
            &&& call_source(receiver, method, args).len() == args_from + args.len() + 1 - start
            &&& call_pattern(method).len() == 2 + method.len()
            &&& s.len() == args_from + args.len() + 1 + post.len()
            &&& s.subrange(start, i) == receiver
            &&& start > 0 ==> s[start - 1] == pre.last()
            &&& s.subrange(i, args_from - 1) == call_pattern(method)
            &&& s.subrange(args_from, args_from + args.len()) == args
            &&& s[args_from + args.len()] == ')'
        }),
{
    let w = call_source(receiver, method, args);
    let n: int = receiver.len() as int;
    let args_from: int = n + 2 + method.len() + 1;
    assert(w.len() == args_from + args.len() + 1 && w.subrange(0, n) == receiver && w.subrange(
        n,
        args_from - 1,
    ) == call_pattern(method) && w.subrange(args_from, args_from + args.len()) == args
        && w[args_from + args.len()] == ')' && call_pattern(method).len() == 2 + method.len())
        by {
        reveal(call_source);
        reveal_strlit("->");
        reveal_strlit("(");
        reveal_strlit(")");
    }
    lemma_within(pre, w, post, 0, n);
    lemma_within(pre, w, post, n, args_from - 1);
    lemma_within(pre, w, post, args_from, args_from + args.len());
}

/// What is read of a call, said of the places in the text.
proof fn lemma_call_read(
    s: Seq<char>,
    method: Seq<char>,
    start: int,
    i: int,
    receiver: Seq<char>,
    args: Seq<char>,
)
    requires
        0 <= start <= i,
        i + 2 + method.len() + 1 + args.len() < s.len(),
        call_pattern(method).len() == 2 + method.len(),
        s.subrange(start, i) == receiver,
        free_of(receiver, receiver_stop()),
        start > 0 ==> receiver_stop().holds(s[start - 1]),
        s.subrange(i + 2 + method.len() + 1, i + 2 + method.len() + 1 + args.len()) == args,
        free_of(args, Stop::At(')')),
        s[i + 2 + method.len() + 1 + args.len()] == ')',
    ensures
        call_site(s, method, i) == (CallSite {
            edit: Edit {
                start,
                end: i + 2 + method.len() + 1 + args.len() + 1,
                text: call_text(method, receiver, args),
            },
            faults: Seq::empty(),
        }),
{
    let args_from = i + 2 + method.len() + 1;
    lemma_scan_back_yields(s, i, receiver, receiver_stop());
    lemma_scan_step(s, args_from, args, 1, Stop::At(')'));
}

/// What is read of a call that stands in a text: the receiver and the
/// arguments as they stand, an edit that covers the whole call, and nothing
/// amiss.
pub proof fn lemma_call_site(
    pre: Seq<char>,
    receiver: Seq<char>,
    method: Seq<char>,
    args: Seq<char>,
    post: Seq<char>,
)
    requires
        pre.len() == 0 || receiver_stop().holds(pre.last()),
        free_of(receiver, receiver_stop()),
        free_of(args, Stop::At(')')),
    ensures
        call_site(
            pre + call_source(receiver, method, args) + post,
            method,
            (pre.len() + receiver.len()) as int,
        ) == (CallSite {
            edit: Edit {
                start: pre.len() as int,
                end: (pre.len() + call_source(receiver, method, args).len()) as int,
                text: call_text(method, receiver, args),
            },
            faults: Seq::empty(),
        }),
        matches_at(
            pre + call_source(receiver, method, args) + post,
            call_pattern(method),
            (pre.len() + receiver.len()) as int,
        ),
{
    let s = pre + call_source(receiver, method, args) + post;
    let start = pre.len() as int;
    let i = start + receiver.len();
    lemma_call_placed(pre, receiver, method, args, post);
    lemma_call_read(s, method, start, i, receiver, args);
}

/// Where the parts of a method stand in a text that holds it.
proof fn lemma_method_placed(
    pre: Seq<char>,
    ty: Seq<char>,
    class: Seq<char>,
    name: Seq<char>,
    params: Seq<char>,
    body: Seq<char>,
    post: Seq<char>,
)
    ensures
        ({
            let s = pre + method_source(ty, class, name, params, body) + post;
            let start = pre.len() as int;
            let i = start + ty.len();
            let name_from = i + class.len() + 2;
            let params_from = name_from + name.len() + 1;
            let body_from = params_from + params.len() + 3;
            &&& method_source(ty, class, name, params, body).len() == body_from + body.len() + 1
                - start
            &&& method_pattern(class).len() == class.len() + 2
            &&& s.len() == body_from + body.len() + 1 + post.len()
            &&& s.subrange(start, i) == ty
            &&& start > 0 ==> s[start - 1] == pre.last()
            &&& s.subrange(i, name_from) == method_pattern(class)
            &&& s.subrange(name_from, name_from + name.len()) == name
            &&& s[name_from + name.len()] == '('
            &&& s.subrange(params_from, params_from + params.len()) == params
            &&& s[params_from + params.len()] == ')'
            &&& s.subrange(body_from, body_from + body.len()) == body
            &&& s[body_from + body.len()] == '}'
        }),
{
    let w = method_source(ty, class, name, params, body);
    let n: int = ty.len() as int;
    let name_from: int = n + class.len() + 2;
    let params_from: int = name_from + name.len() + 1;
    let body_from: int = params_from + params.len() + 3;
    assert(w.len() == body_from + body.len() + 1 && w.subrange(0, n) == ty && w.subrange(
        n,
        name_from,
    ) == method_pattern(class) && w.subrange(name_from, name_from + name.len()) == name
        && w[name_from + name.len()] == '(' && w.subrange(
        params_from,
        params_from + params.len(),
    ) == params && w[params_from + params.len()] == ')' && w.subrange(
        body_from,
        body_from + body.len(),
    ) == body && w[body_from + body.len()] == '}' && method_pattern(class).len() == class.len()
        + 2) by {
        reveal(method_source);
        reveal_strlit("::");
        reveal_strlit("(");
        reveal_strlit(") {");
        reveal_strlit("}");
    }
    lemma_within(pre, w, post, 0, n);
    lemma_within(pre, w, post, n, name_from);
    lemma_within(pre, w, post, name_from, name_from + name.len());
    lemma_within(pre, w, post, params_from, params_from + params.len());
    lemma_within(pre, w, post, body_from, body_from + body.len());
}

/// What is read of a method, said of the places in the text.
proof fn lemma_method_read(
    s: Seq<char>,
    class: Seq<char>,
    start: int,
    i: int,
    ty: Seq<char>,
    name: Seq<char>,
    params: Seq<char>,
    body: Seq<char>,
)
    requires
        0 <= start <= i,
        i + class.len() + 2 + name.len() + 1 + params.len() + 3 + body.len() < s.len(),
        method_pattern(class).len() == class.len() + 2,
        s.subrange(start, i) == ty,
        free_of(ty, Stop::At('\n')),
        start > 0 ==> s[start - 1] == '\n',
        s.subrange(i + class.len() + 2, i + class.len() + 2 + name.len()) == name,
        free_of(name, Stop::At('(')),
        s[i + class.len() + 2 + name.len()] == '(',
        s.subrange(
            i + class.len() + 2 + name.len() + 1,
            i + class.len() + 2 + name.len() + 1 + params.len(),
        ) == params,
        free_of(params, Stop::At(')')),
        s[i + class.len() + 2 + name.len() + 1 + params.len()] == ')',
        s.subrange(
            i + class.len() + 2 + name.len() + 1 + params.len() + 3,
            i + class.len() + 2 + name.len() + 1 + params.len() + 3 + body.len(),
        ) == body,
        free_of(body, Stop::At('}')),
        s[i + class.len() + 2 + name.len() + 1 + params.len() + 3 + body.len()] == '}',
    ensures
        method_site(s, class, i) == (MethodSite {
            edit: Edit {
                start,
                end: i + class.len() + 2 + name.len() + 1 + params.len() + 3 + body.len() + 1,
                text: method_text(
                    trimmed(class),
                    trimmed(ty),
                    trimmed(name),
                    params_text(params),
                    body_text(body),
                ),
            },
            name,
            faults: Seq::empty(),
        }),
{
    let name_from = i + class.len() + 2;
    let params_from = name_from + name.len() + 1;
    let body_from = params_from + params.len() + 3;
    lemma_scan_back_yields(s, i, ty, Stop::At('\n'));
    lemma_scan_step(s, name_from, name, 1, Stop::At('('));
    lemma_scan_step(s, params_from, params, 3, Stop::At(')'));
    lemma_scan_step(s, body_from, body, 1, Stop::At('}'));
}

/// What is read of a method that stands in a text: its name, an edit that
/// covers the whole definition and holds the function it becomes, and
/// nothing amiss.
pub proof fn lemma_method_site(
    pre: Seq<char>,
    ty: Seq<char>,
    class: Seq<char>,
    name: Seq<char>,
    params: Seq<char>,
    body: Seq<char>,
    post: Seq<char>,
)
    requires
        pre.len() == 0 || pre.last() == '\n',
        free_of(ty, Stop::At('\n')),
        free_of(name, Stop::At('(')),
        free_of(params, Stop::At(')')),
        free_of(body, Stop::At('}')),
    ensures
        method_site(
            pre + method_source(ty, class, name, params, body) + post,
            class,
            (pre.len() + ty.len()) as int,
        ) == (MethodSite {
            edit: Edit {
                start: pre.len() as int,
                end: (pre.len() + method_source(ty, class, name, params, body).len()) as int,
                text: method_text(
                    trimmed(class),
                    trimmed(ty),
                    trimmed(name),
                    params_text(params),
                    body_text(body),
                ),
            },
            name,
            faults: Seq::empty(),
        }),
        matches_at(
            pre + method_source(ty, class, name, params, body) + post,
            method_pattern(class),
            (pre.len() + ty.len()) as int,
        ),
        ty.len() + method_pattern(class).len() <= method_source(ty, class, name, params, body).len(),
{
    let s = pre + method_source(ty, class, name, params, body) + post;
    let start = pre.len() as int;
    let i = start + ty.len();
    lemma_method_placed(pre, ty, class, name, params, body, post);
    lemma_method_read(s, class, start, i, ty, name, params, body);
}

/// Where the parts of a class stand in a text that holds it.
proof fn lemma_class_placed(
    pre: Seq<char>,
    name: Seq<char>,
    token: Seq<char>,
    fields: Seq<char>,
    post: Seq<char>,
)
    ensures
        ({
            let s = pre + class_source(name, token, fields) + post;
            let i = pre.len() as int;
            let name_from = i + 6;
            let token_from = name_from + name.len() + 1;
            let body_from = token_from + token.len() + 1;
            &&& class_source(name, token, fields).len() == body_from + fields.len() + 1 - i
            &&& "class"@.len() == 5
            &&& s.len() == body_from + fields.len() + 1 + post.len()
            &&& s.subrange(i, i + 5) == "class"@
            &&& s.subrange(name_from, name_from + name.len()) == name
            &&& s[name_from + name.len()] == ' '
            &&& s.subrange(token_from, token_from + token.len()) == token
            &&& s[token_from + token.len()] == '{'
            &&& s.subrange(body_from, body_from + fields.len()) == fields
            &&& s[body_from + fields.len()] == '}'
        }),
{
    let w = class_source(name, token, fields);
    let name_to: int = (6 + name.len()) as int;
    let token_from: int = name_to + 1;
    let body_from: int = token_from + token.len() + 1;
    assert(w.len() == body_from + fields.len() + 1 && w.subrange(0, 5) == "class"@ && w.subrange(
        6,
        name_to,
    ) == name && w[name_to] == ' ' && w.subrange(token_from, token_from + token.len())
        == token && w[token_from + token.len()] == '{' && w.subrange(
        body_from,
        body_from + fields.len(),
    ) == fields && w[body_from + fields.len()] == '}' && "class"@.len() == 5) by {
        reveal(class_source);
        reveal_strlit("class");
        reveal_strlit("class ");
        reveal_strlit(" ");
        reveal_strlit("{");
        reveal_strlit("}");
    }
    lemma_within(pre, w, post, 0, 5);
    lemma_within(pre, w, post, 6, name_to);
    lemma_within(pre, w, post, token_from, token_from + token.len());
    lemma_within(pre, w, post, body_from, body_from + fields.len());
}

/// What is read of a class, said of the places in the text.
proof fn lemma_class_read(
    s: Seq<char>,
    i: int,
    name: Seq<char>,
    token: Seq<char>,
    fields: Seq<char>,
)
    requires
        0 <= i,
        i + 6 + name.len() + 1 + token.len() + 1 + fields.len() < s.len(),
        "class"@.len() == 5,
        s.subrange(i + 6, i + 6 + name.len()) == name,
        free_of(name, name_stop()),
        s[i + 6 + name.len()] == ' ',
        s.subrange(i + 6 + name.len() + 1, i + 6 + name.len() + 1 + token.len()) == token,
        free_of(token, Stop::At('{')),
        s[i + 6 + name.len() + 1 + token.len()] == '{',
        s.subrange(
            i + 6 + name.len() + 1 + token.len() + 1,
            i + 6 + name.len() + 1 + token.len() + 1 + fields.len(),
        ) == fields,
        free_of(fields, Stop::At('}')),
        s[i + 6 + name.len() + 1 + token.len() + 1 + fields.len()] == '}',
    ensures
        class_site(s, i) == (ClassSite {
            edit: Edit {
                start: i,
                end: i + 6 + name.len() + 1 + token.len() + 1 + fields.len() + 1,
                text: class_text(name, fields_text(fields, token)),
            },
            name,
            faults: Seq::empty(),
        }),
{
    let name_from = i + 6;
    let token_from = name_from + name.len() + 1;
    let body_from = token_from + token.len() + 1;
    lemma_scan_step(s, name_from, name, 1, name_stop());
    lemma_scan_step(s, token_from, token, 1, Stop::At('{'));
    lemma_scan_step(s, body_from, fields, 1, Stop::At('}'));
}

/// What is read of a class that stands in a text: its name, an edit that
/// covers the whole declaration and holds the record it becomes, and nothing
/// amiss.
pub proof fn lemma_class_site(
    pre: Seq<char>,
    name: Seq<char>,
    token: Seq<char>,
    fields: Seq<char>,
    post: Seq<char>,
)
    requires
        free_of(name, name_stop()),
        free_of(token, Stop::At('{')),
        free_of(fields, Stop::At('}')),
    ensures
        class_site(pre + class_source(name, token, fields) + post, pre.len() as int) == (ClassSite {
            edit: Edit {
                start: pre.len() as int,
                end: (pre.len() + class_source(name, token, fields).len()) as int,
                text: class_text(name, fields_text(fields, token)),
            },
            name,
            faults: Seq::empty(),
        }),
        matches_at(pre + class_source(name, token, fields) + post, "class"@, pre.len() as int),
        "class"@.len() <= class_source(name, token, fields).len(),
{
    let s = pre + class_source(name, token, fields) + post;
    lemma_class_placed(pre, name, token, fields, post);
    lemma_class_read(s, pre.len() as int, name, token, fields);
}

/// Where the parts of a construction stand in a text that holds it.
proof fn lemma_new_placed(pre: Seq<char>, class: Seq<char>, args: Seq<char>, post: Seq<char>)
    ensures
        ({
            let s = pre + new_source(class, args) + post;
            let i = pre.len() as int;
            let class_from = i + 4;
            let args_from = class_from + class.len() + 1;
            &&& new_source(class, args).len() == args_from + args.len() + 1 - i
            &&& "new"@.len() == 3
            &&& s.len() == args_from + args.len() + 1 + post.len()
            &&& s.subrange(i, i + 3) == "new"@
            &&& s.subrange(class_from, class_from + class.len()) == class
            &&& s[class_from + class.len()] == '('
            &&& s.subrange(args_from, args_from + args.len()) == args
            &&& s[args_from + args.len()] == ')'
        }),
{
    let w = new_source(class, args);
    let class_to: int = (4 + class.len()) as int;
    let args_from: int = class_to + 1;
    assert(w.len() == args_from + args.len() + 1 && w.subrange(0, 3) == "new"@ && w.subrange(
        4,
        class_to,
    ) == class && w[class_to] == '(' && w.subrange(args_from, args_from + args.len())
        == args && w[args_from + args.len()] == ')' && "new"@.len() == 3) by {
        reveal(new_source);
        reveal_strlit("new");
        reveal_strlit("new ");
        reveal_strlit("(");
        reveal_strlit(")");
    }
    lemma_within(pre, w, post, 0, 3);
    lemma_within(pre, w, post, 4, class_to);
    lemma_within(pre, w, post, args_from, args_from + args.len());
}

/// What is read of a construction, said of the places in the text.
proof fn lemma_new_read(
    s: Seq<char>,
    table: Seq<Class>,
    i: int,
    class: Seq<char>,
    args: Seq<char>,
)
    requires
        0 <= i,
        i + 4 + class.len() + 1 + args.len() < s.len(),
        "new"@.len() == 3,
        s.subrange(i + 4, i + 4 + class.len()) == class,
        free_of(class, Stop::At('(')),
        s[i + 4 + class.len()] == '(',
        s.subrange(i + 4 + class.len() + 1, i + 4 + class.len() + 1 + args.len()) == args,
        free_of(args, Stop::At(')')),
        s[i + 4 + class.len() + 1 + args.len()] == ')',
    ensures
        new_site(s, table, i) == (NewSite {
            edit: Edit {
                start: i,
                end: i + 4 + class.len() + 1 + args.len() + 1,
                text: new_text(class, new_args(args, class, table)),
            },
            faults: fault_if(
                !(0 <= lookup(table, class) < table.len()),
                Fault::UnknownClass { at: i, name: class },
            ),
        }),
{
    let class_from = i + 4;
    let args_from = class_from + class.len() + 1;
    lemma_scan_step(s, class_from, class, 1, Stop::At('('));
    lemma_scan_step(s, args_from, args, 1, Stop::At(')'));
    let unknown = fault_if(
        !(0 <= lookup(table, class) < table.len()),
        Fault::UnknownClass { at: i, name: class },
    );
    assert(Seq::<Fault>::empty() + unknown == unknown);
}

/// What is read of a construction that stands in a text: an edit that covers
/// the whole construction and holds the expression it becomes, and an issue
/// where the table does not have the class.
pub proof fn lemma_new_site(
    pre: Seq<char>,
    class: Seq<char>,
    args: Seq<char>,
    post: Seq<char>,
    table: Seq<Class>,
)
    requires
        free_of(class, Stop::At('(')),
        free_of(args, Stop::At(')')),
    ensures
        new_site(pre + new_source(class, args) + post, table, pre.len() as int) == (NewSite {
            edit: Edit {
                start: pre.len() as int,
                end: (pre.len() + new_source(class, args).len()) as int,
                text: new_text(class, new_args(args, class, table)),
            },
            faults: fault_if(
                !(0 <= lookup(table, class) < table.len()),
                Fault::UnknownClass { at: pre.len() as int, name: class },
            ),
        }),
        matches_at(pre + new_source(class, args) + post, "new"@, pre.len() as int),
{
    let s = pre + new_source(class, args) + post;
    lemma_new_placed(pre, class, args, post);
    lemma_new_read(s, table, pre.len() as int, class, args);
}

} // verus!
