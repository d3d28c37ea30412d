use crate::edits::{apply_edits, edits_of, Edit, PendingEdit};
use crate::issues::{fault_if, faults_of, note_all, note_if, Fault, Issue};
use crate::laws::{law_nothing_is_lost, law_output_begins_with_preamble};
use crate::methods::rewrite_methods;
use crate::parser::{Parser, Program};
use crate::scanner::{
    advance, collect_until, cursor_after, scanned, step, stopped, strip, stripped, trim, trimmed,
    Stop,
};
use crate::symbols::{
    declare, declared, extends, find_class, lookup, methods_unique, table_of, Class,
};
use crate::templates::{class_text, emit_class, emit_super_field, super_field, PREAMBLE};
use crate::text::{chars_of, find_all, joined, occurrences, positions};
use vstd::prelude::*;
use vstd::string::StringExecFns;

verus! {

/// A class that was found: the edit that rewrites it, its name as it stands
/// in the text, and what was amiss.
pub ghost struct ClassSite {
    pub edit: Edit,
    pub name: Seq<char>,
    pub faults: Seq<Fault>,
}

/// What ends a class's name.
pub open spec fn name_stop() -> Stop {
    Stop::AtEither(' ', '{')
}

/// The parent's name, as the token between a class's name and its opening
/// brace gives it: without the marks `+` at its ends and the white space
/// round it.
pub open spec fn parent_name(token: Seq<char>) -> Seq<char> {
    trimmed(stripped(token, Stop::Past('+')))
}

/// The fields of the record: the class's own, as they stand, and after them
/// the parent's record where the class names a parent.
pub open spec fn fields_text(body: Seq<char>, token: Seq<char>) -> Seq<char> {
    if trimmed(token).len() > 0 {
        body + super_field(parent_name(token))
    } else {
        body
    }
}

/// The class whose keyword stands at `i`: one character after the keyword is
/// passed over; the name follows up to a space or an opening brace; the
/// parent's token follows up to the next opening brace; the fields follow up
/// to the first closing brace. The edit reaches from the keyword to that
/// closing brace. A class without one of the three marks is unterminated.
pub open spec fn class_site(s: Seq<char>, i: int) -> ClassSite {
    let len = s.len() as int;
    let at = step(len, 0, i);
    let name_from = step(len, at, "class"@.len() as int + 1);
    let token_from = cursor_after(s, name_from, 1, name_stop());
    let body_from = cursor_after(s, token_from, 1, Stop::At('{'));
    let name = scanned(s, name_from, name_stop());
    ClassSite {
        edit: Edit {
            start: at,
            end: cursor_after(s, body_from, 1, Stop::At('}')),
            text: class_text(
                name,
                fields_text(
                    scanned(s, body_from, Stop::At('}')),
                    scanned(s, token_from, Stop::At('{')),
                ),
            ),
        },
        name,
        faults: fault_if(
            !(stopped(s, name_from, name_stop()) && stopped(s, token_from, Stop::At('{'))
                && stopped(s, body_from, Stop::At('}'))),
            Fault::UnterminatedBlock { at: i },
        ),
    }
}

/// What is amiss where a class is declared under a name that the table has.
pub open spec fn duplicate_fault(table: Seq<Class>, name: Seq<char>, i: int) -> Seq<Fault> {
    fault_if(lookup(table, name) < table.len(), Fault::DuplicateClass { at: i, name })
}

/// The program as the methods of the class named at `i` find it: with the
/// class entered in the table, and an issue where the table had its name.
pub open spec fn entered(p: Program, source: Seq<char>, i: int) -> Program {
    Program {
        text: p.text,
        table: declared(p.table, class_site(source, i).name),
        issues: p.issues + duplicate_fault(p.table, class_site(source, i).name, i),
    }
}

/// The program after the class named at `i` was entered in the table and its
/// methods and their calls were rewritten in the whole text.
pub open spec fn class_step(p: Program, source: Seq<char>, i: int) -> Program {
    rewrite_methods(entered(p, source, i), trimmed(class_site(source, i).name))
}

/// The program after the first `n` of the classes were entered, one after the
/// other: each is named as the text at the start has it at its place in
/// `hits`, is entered in the table, and has its methods and their calls
/// rewritten in the whole text as it stands then.
pub open spec fn classes_entered(start: Program, hits: Seq<int>, n: nat) -> Program
    decreases n,
{
    if n == 0 || n > hits.len() {
        start
    } else {
        class_step(classes_entered(start, hits, (n - 1) as nat), start.text, hits[n - 1])
    }
}

/// The program after all the classes were entered and the methods of each
/// were rewritten: the text in which the classes are found again.
pub open spec fn classes_done(p: Program) -> Program {
    let named = find_all(p.text, "class"@, 0);
    classes_entered(p, named, named.len())
}

/// The edits for the classes whose keywords stand at `hits`.
pub open spec fn class_edits(s: Seq<char>, hits: Seq<int>) -> Seq<Edit> {
    hits.map_values(|i: int| class_site(s, i).edit)
}

/// What was amiss with the classes whose keywords stand at `hits`, in their
/// order.
pub open spec fn class_faults(s: Seq<char>, hits: Seq<int>) -> Seq<Fault>
    decreases hits.len(),
{
    if hits.len() == 0 {
        Seq::empty()
    } else {
        class_faults(s, hits.drop_last()) + class_site(s, hits.last()).faults
    }
}

/// The program with every class turned into a record, its methods into
/// functions and the calls of them rewritten, and the preamble in front, in
/// two steps. First the classes are named, where the keyword stands in the
/// text at the start, and each is entered in the table and has its methods
/// rewritten. Then the keyword is looked for again in what that gave, every
/// class is read there, and the edits are carried out. So no class is read
/// at a place that was found before the text changed.
pub open spec fn rewrite_classes(p: Program) -> Program {
    let done = classes_done(p);
    let hits = find_all(done.text, "class"@, 0);
    Program {
        text: PREAMBLE@ + apply_edits(done.text, class_edits(done.text, hits)),
        table: done.table,
        issues: done.issues + class_faults(done.text, hits),
    }
}

/// The class whose keyword stands at `i`: its edit, its name, and what was
/// amiss.
pub fn class_site_edit(buf: &Vec<char>, i: usize) -> (res: (PendingEdit, String, Vec<Issue>))
    ensures
        res.0@ == class_site(buf@, i as int).edit,
        res.1@ == class_site(buf@, i as int).name,
        faults_of(res.2@) == class_site(buf@, i as int).faults,
{
    let len = buf.len();
    let at = advance(len, 0, i);
    proof {
        reveal_strlit("class");
    }
    let name_from = advance(len, at, 6);
    let (name, token_from, named) = collect_until(buf, name_from, 1, Stop::AtEither(' ', '{'));
    let (token, body_from, opened) = collect_until(buf, token_from, 1, Stop::At('{'));
    let (body, end, closed) = collect_until(buf, body_from, 1, Stop::At('}'));
    let mut found: Vec<Issue> = Vec::new();
    assert(faults_of(found@) == Seq::<Fault>::empty());
    note_if(&mut found, !(named && opened && closed), Issue::UnterminatedBlock { at: i });
    let mut fields = body;
    if !trim(token.as_str()).as_str().is_empty() {
        let parent = trim(strip(token.as_str(), Stop::Past('+')).as_str());
        fields.append(emit_super_field(parent.as_str()).as_str());
    }
    let text = emit_class(name.as_str(), fields.as_str());
    (PendingEdit { start: at, end, text }, name, found)
}

impl Parser {
    /// Turns every class into a record and puts the preamble in front of the
    /// text. The classes are named first, as the text has them, and each is
    /// entered in the table and has its methods and their calls rewritten;
    /// then the classes are found again in what that gave, read there, and
    /// rewritten.
    pub fn parse_classes(&mut self)
        ensures
            final(self).program() == rewrite_classes(old(self).program()),
            extends(final(self).program().table, old(self).program().table),
            methods_unique(old(self).program().table) ==> methods_unique(
                final(self).program().table,
            ),
            old(self).program().issues.is_prefix_of(final(self).program().issues),
            PREAMBLE@.is_prefix_of(final(self).src@),
    {
        proof {
            law_nothing_is_lost(self.program(), Seq::empty());
            law_output_begins_with_preamble(self.program());
        }
        let source = chars_of(self.src.as_str());
        let pat = chars_of("class");
        let named = occurrences(&source, &pat);
        let ghost start = self.program();
        let ghost marks = positions(named@);
        let mut k: usize = 0;
        while k < named.len()
            invariant
                k <= named.len(),
                source@ == start.text,
                marks == positions(named@),
                self.program() == classes_entered(start, marks, k as nat),
            decreases named.len() - k,
        {
            let (_, name, _) = class_site_edit(&source, named[k]);
            let known = find_class(&self.classes, &name) < self.classes.len();
            note_if(
                &mut self.issues,
                known,
                Issue::DuplicateClass { at: named[k], name: name.clone() },
            );
            let scope = trim(name.as_str());
            declare(&mut self.classes, name);
            self.parse_method(scope);
            k += 1;
        }
        let buf = chars_of(self.src.as_str());
        let hits = occurrences(&buf, &pat);
        let ghost before = faults_of(self.issues@);
        let ghost done = self.program();
        let mut edits: Vec<PendingEdit> = Vec::new();
        let mut j: usize = 0;
        assert(before + Seq::<Fault>::empty() == before);
        while j < hits.len()
            invariant
                j <= hits.len(),
                table_of(self.classes@) == done.table,
                self.src@ == done.text,
                edits_of(edits@) == class_edits(buf@, positions(hits@).take(j as int)),
                faults_of(self.issues@) == before + class_faults(
                    buf@,
                    positions(hits@).take(j as int),
                ),
            decreases hits.len() - j,
        {
            let (edit, _, found) = class_site_edit(&buf, hits[j]);
            let ghost waiting = edits_of(edits@);
            let ghost seen = positions(hits@).take(j as int);
            let ghost next = positions(hits@).take(j + 1);
            edits.push(edit);
            note_all(&mut self.issues, found);
            proof {
                assert(edits_of(edits@) =~= waiting.push(edit@));
                assert(next =~= seen.push(hits@[j as int] as int));
                assert(next.drop_last() == seen);
                assert(class_edits(buf@, next) =~= class_edits(buf@, seen).push(edit@));
                assert(before + (class_faults(buf@, seen) + faults_of(found@)) == before
                    + class_faults(buf@, seen) + faults_of(found@));
            }
            j += 1;
        }
        assert(positions(hits@).take(hits.len() as int) == positions(hits@));
        self.insert(edits);
        self.src = joined(PREAMBLE, self.src.as_str());
    }
}

} // verus!
