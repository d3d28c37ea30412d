use crate::calls::rewrite_calls;
use crate::edits::{apply_edits, edits_of, Edit, PendingEdit};
use crate::issues::{fault_if, faults_of, note_all, note_if, Fault, Issue};
use crate::laws::law_nothing_is_lost;
use crate::parser::{Parser, Program};
use crate::scanner::{
    advance, collect_back_until, collect_until, cursor_after, scan_start, scanned, scanned_back,
    step, stopped, trim, trimmed, Stop,
};
use crate::symbols::{extends, methods_unique, register, registered, table_of};
use crate::templates::{emit_method, method_text};
use crate::text::{chars_of, find_all, occurrences, positions, push_str, replace, replace_all};
use vstd::prelude::*;

verus! {

/// What marks a method of the class.
pub open spec fn method_pattern(class: Seq<char>) -> Seq<char> {
    class + "::"@
}

/// A method that was found: the edit that rewrites it, its name as it
/// stands in the text, and what was amiss.
pub ghost struct MethodSite {
    pub edit: Edit,
    pub name: Seq<char>,
    pub faults: Seq<Fault>,
}

/// A method's body with each `super` read through the receiver.
pub open spec fn body_text(body: Seq<char>) -> Seq<char> {
    replace_all(body, "super"@, "self->super"@)
}

/// A method's parameters, set apart as the emitted function has them.
pub open spec fn params_text(params: Seq<char>) -> Seq<char> {
    replace_all(params, ","@, ";"@)
}

/// The method whose class qualifier stands at `i`: the return type is what
/// stands before the qualifier on its line; the name follows the qualifier up
/// to the opening bracket; the parameters follow up to the first closing
/// bracket; three characters are passed over, and the body follows up to the
/// first closing brace. The edit reaches from the start of the return type to
/// that closing brace. A method without one of the three marks is
/// unterminated.
pub open spec fn method_site(s: Seq<char>, class: Seq<char>, i: int) -> MethodSite {
    let len = s.len() as int;
    let at = step(len, 0, i);
    let name_from = step(len, at, method_pattern(class).len() as int);
    let params_from = cursor_after(s, name_from, 1, Stop::At('('));
    let body_from = cursor_after(s, params_from, 3, Stop::At(')'));
    let name = scanned(s, name_from, Stop::At('('));
    MethodSite {
        edit: Edit {
            start: scan_start(s, at, Stop::At('\n')),
            end: cursor_after(s, body_from, 1, Stop::At('}')),
            text: method_text(
                trimmed(class),
                trimmed(scanned_back(s, i, Stop::At('\n'))),
                trimmed(name),
                params_text(scanned(s, params_from, Stop::At(')'))),
                body_text(scanned(s, body_from, Stop::At('}'))),
            ),
        },
        name,
        faults: fault_if(
            !(stopped(s, name_from, Stop::At('(')) && stopped(s, params_from, Stop::At(')'))
                && stopped(s, body_from, Stop::At('}'))),
            Fault::UnterminatedBlock { at: i },
        ),
    }
}

/// The program as the calls of the method named at `i` find it: with the
/// method noted for the class.
pub open spec fn noted(p: Program, source: Seq<char>, class: Seq<char>, i: int) -> Program {
    Program {
        text: p.text,
        table: registered(p.table, class, method_site(source, class, i).name),
        issues: p.issues,
    }
}

/// The program after the method named at `i` was noted for the class and its
/// calls were rewritten in the whole text.
pub open spec fn method_step(p: Program, source: Seq<char>, class: Seq<char>, i: int) -> Program {
    rewrite_calls(noted(p, source, class, i), method_site(source, class, i).name)
}

/// The program after the first `n` of the methods were noted, one after the
/// other: each is named as the text at the start has it at its place in
/// `hits`, is noted for the class, and has its calls rewritten in the whole
/// text as it stands then.
pub open spec fn methods_noted(start: Program, class: Seq<char>, hits: Seq<int>, n: nat) -> Program
    decreases n,
{
    if n == 0 || n > hits.len() {
        start
    } else {
        method_step(
            methods_noted(start, class, hits, (n - 1) as nat),
            start.text,
            class,
            hits[n - 1],
        )
    }
}

/// The program after all the methods of the class were noted and the calls
/// of each were rewritten: the text in which the methods are found again.
pub open spec fn methods_called(p: Program, class: Seq<char>) -> Program {
    let named = find_all(p.text, method_pattern(class), 0);
    methods_noted(p, class, named, named.len())
}

/// The edits for the methods whose class qualifiers stand at `hits`.
pub open spec fn method_edits(s: Seq<char>, class: Seq<char>, hits: Seq<int>) -> Seq<Edit> {
    hits.map_values(|i: int| method_site(s, class, i).edit)
}

/// What was amiss with the methods whose class qualifiers stand at `hits`, in
/// their order.
pub open spec fn method_faults(s: Seq<char>, class: Seq<char>, hits: Seq<int>) -> Seq<Fault>
    decreases hits.len(),
{
    if hits.len() == 0 {
        Seq::empty()
    } else {
        method_faults(s, class, hits.drop_last()) + method_site(s, class, hits.last()).faults
    }
}

/// The program with the methods of the class turned into functions and the
/// calls of them rewritten, in two steps. First the methods are named, where
/// the class qualifier stands in the text at the start, and the calls of
/// each are rewritten. Then the qualifier is looked for again in what that
/// gave, every method is read there, and the edits are carried out. So no
/// method is read at a place that was found before the text changed.
pub open spec fn rewrite_methods(p: Program, class: Seq<char>) -> Program {
    let called = methods_called(p, class);
    let hits = find_all(called.text, method_pattern(class), 0);
    Program {
        text: apply_edits(called.text, method_edits(called.text, class, hits)),
        table: called.table,
        issues: called.issues + method_faults(called.text, class, hits),
    }
}

/// The method whose class qualifier stands at `i`: its edit, its name, and
/// what was amiss.
pub fn method_site_edit(buf: &Vec<char>, class: &str, i: usize) -> (res: (
    PendingEdit,
    String,
    Vec<Issue>,
))
    ensures
        res.0@ == method_site(buf@, class@, i as int).edit,
        res.1@ == method_site(buf@, class@, i as int).name,
        faults_of(res.2@) == method_site(buf@, class@, i as int).faults,
{
    let len = buf.len();
    let at = advance(len, 0, i);
    let (ty, start) = collect_back_until(buf, i, Stop::At('\n'));
    proof {
        reveal_strlit("::");
    }
    let name_from = advance(len, advance(len, at, chars_of(class).len()), 2);
    let (name, params_from, named) = collect_until(buf, name_from, 1, Stop::At('('));
    let (params, body_from, listed) = collect_until(buf, params_from, 3, Stop::At(')'));
    let (body, end, closed) = collect_until(buf, body_from, 1, Stop::At('}'));
    let mut found: Vec<Issue> = Vec::new();
    assert(faults_of(found@) == Seq::<Fault>::empty());
    note_if(&mut found, !(named && listed && closed), Issue::UnterminatedBlock { at: i });
    let text = emit_method(
        trim(class).as_str(),
        trim(ty.as_str()).as_str(),
        trim(name.as_str()).as_str(),
        replace(params.as_str(), ",", ";").as_str(),
        replace(body.as_str(), "super", "self->super").as_str(),
    );
    (PendingEdit { start, end, text }, name, found)
}

impl Parser {
    /// Turns every method of the class into a function that takes the
    /// receiver first. The methods are named first, as the text has them, and
    /// each is noted for the class and has its calls rewritten in the whole
    /// text; then the methods are found again in what that gave, read there,
    /// and rewritten.
    pub fn parse_method(&mut self, class: String)
        ensures
            final(self).program() == rewrite_methods(old(self).program(), class@),
            extends(final(self).program().table, old(self).program().table),
            methods_unique(old(self).program().table) ==> methods_unique(
                final(self).program().table,
            ),
            old(self).program().issues.is_prefix_of(final(self).program().issues),
    {
        proof {
            law_nothing_is_lost(self.program(), class@);
        }
        let source = chars_of(self.src.as_str());
        let mut pat = chars_of(class.as_str());
        push_str(&mut pat, "::");
        let named = occurrences(&source, &pat);
        let ghost start = self.program();
        let ghost marks = positions(named@);
        let mut k: usize = 0;
        while k < named.len()
            invariant
                k <= named.len(),
                source@ == start.text,
                marks == positions(named@),
                self.program() == methods_noted(start, class@, marks, k as nat),
            decreases named.len() - k,
        {
            let (_, name, _) = method_site_edit(&source, class.as_str(), named[k]);
            register(&mut self.classes, &class, name.clone());
            self.parse_call(name);
            k += 1;
        }
        let buf = chars_of(self.src.as_str());
        let hits = occurrences(&buf, &pat);
        let ghost before = faults_of(self.issues@);
        let ghost called = self.program();
        let mut edits: Vec<PendingEdit> = Vec::new();
        let mut j: usize = 0;
        assert(before + Seq::<Fault>::empty() == before);
        while j < hits.len()
            invariant
                j <= hits.len(),
                table_of(self.classes@) == called.table,
                self.src@ == called.text,
                edits_of(edits@) == method_edits(buf@, class@, positions(hits@).take(j as int)),
                faults_of(self.issues@) == before + method_faults(
                    buf@,
                    class@,
                    positions(hits@).take(j as int),
                ),
            decreases hits.len() - j,
        {
            let (edit, _, found) = method_site_edit(&buf, class.as_str(), hits[j]);
            let ghost waiting = edits_of(edits@);
            let ghost seen = positions(hits@).take(j as int);
            let ghost next = positions(hits@).take(j + 1);
            edits.push(edit);
            note_all(&mut self.issues, found);
            proof {
                assert(edits_of(edits@) =~= waiting.push(edit@));
                assert(next =~= seen.push(hits@[j as int] as int));
                assert(next.drop_last() == seen);
                assert(method_edits(buf@, class@, next) =~= method_edits(buf@, class@, seen).push(
                    edit@,
                ));
                assert(before + (method_faults(buf@, class@, seen) + faults_of(found@)) == before
                    + method_faults(buf@, class@, seen) + faults_of(found@));
            }
            j += 1;
        }
        assert(positions(hits@).take(hits.len() as int) == positions(hits@));
        self.insert(edits);
    }
}

} // verus!
