use crate::edits::{apply_edits, edits_of, Edit, PendingEdit};
use crate::issues::{fault_if, faults_of, note_all, note_if, Fault, Issue};
use crate::laws::law_nothing_is_lost;
use crate::parser::{Parser, Program};
use crate::scanner::{
    advance, collect_until, cursor_after, find_stop_back, scan_start, scanned, step, stopped, Stop,
};
use crate::symbols::{find_class, lookup, names_of, table_of, Class, ClassEntry};
use crate::templates::{emit_method_ref, emit_new, method_ref, new_text};
use crate::text::{chars_of, find_all, occurrences, positions, text_of};
use vstd::prelude::*;
use vstd::string::StringExecFns;

verus! {

/// The arguments that hand a record its class's functions, one for each
/// method in the order of the list, a space between two of them.
pub open spec fn method_refs(class: Seq<char>, methods: Seq<Seq<char>>) -> Seq<char>
    decreases methods.len(),
{
    if methods.len() == 0 {
        Seq::empty()
    } else if methods.len() == 1 {
        method_ref(class, methods[0])
    } else {
        method_refs(class, methods.drop_last()) + " "@ + method_ref(class, methods.last())
    }
}

/// Where the functions go into the arguments: before the closing brace where
/// the arguments hold an opening brace and end in a closing one, and at the
/// end otherwise.
pub open spec fn splice_point(args: Seq<char>) -> int {
    if args.len() > 0 && args.last() == '}' && args.contains('{') {
        args.len() - 1
    } else {
        args.len() as int
    }
}

/// What a list has at its end where no argument waits for a separator: a
/// comma, or the brace or bracket that opens the list.
pub open spec fn list_stop() -> Stop {
    Stop::AtAny(',', '{', '(')
}

/// Whether an argument stands before `at` and no comma follows it: the nearest
/// character before `at` that is not white space is there, and is neither a
/// comma nor the brace or bracket that opens a list.
pub open spec fn ends_in_argument(args: Seq<char>, at: int) -> bool {
    let end = scan_start(args, at, Stop::PastBlank);
    0 < end <= args.len() && !list_stop().holds(args[end - 1])
}

/// What stands between the arguments and the functions: a separator where an
/// argument stands before the functions that no comma follows, so that the
/// first function is an argument of its own, and nothing where the arguments
/// end in a comma there or none stands there.
pub open spec fn lead_text(args: Seq<char>) -> Seq<char> {
    if ends_in_argument(args, splice_point(args)) {
        ", "@
    } else {
        Seq::empty()
    }
}

/// The arguments with the class's functions among them. Where the class has
/// no method there is nothing to add, and the arguments stay as they are.
pub open spec fn augmented(args: Seq<char>, class: Class) -> Seq<char> {
    let at = splice_point(args);
    if class.methods.len() == 0 {
        args
    } else {
        args.subrange(0, at) + lead_text(args) + method_refs(class.name, class.methods)
            + args.subrange(at, args.len() as int)
    }
}

/// The arguments of a construction as the emitted expression has them: with
/// the functions of the first entry that bears the class's name, or as they
/// stand where the table has no such entry.
pub open spec fn new_args(args: Seq<char>, class: Seq<char>, table: Seq<Class>) -> Seq<char> {
    let k = lookup(table, class);
    if 0 <= k < table.len() {
        augmented(args, table[k])
    } else {
        args
    }
}

/// A construction that was found: the edit that rewrites it, and what was
/// amiss.
pub ghost struct NewSite {
    pub edit: Edit,
    pub faults: Seq<Fault>,
}

/// The construction whose keyword stands at `i`: one character after the
/// keyword is passed over; the class's name follows up to the opening
/// bracket; the arguments follow up to the first closing bracket, where the
/// edit ends. A construction without one of the two brackets is
/// unterminated, and one whose class the table does not have is of an unknown
/// class.
pub open spec fn new_site(s: Seq<char>, table: Seq<Class>, i: int) -> NewSite {
    let len = s.len() as int;
    let at = step(len, 0, i);
    let class_from = step(len, at, "new"@.len() as int + 1);
    let args_from = cursor_after(s, class_from, 1, Stop::At('('));
    let class = scanned(s, class_from, Stop::At('('));
    NewSite {
        edit: Edit {
            start: at,
            end: cursor_after(s, args_from, 1, Stop::At(')')),
            text: new_text(class, new_args(scanned(s, args_from, Stop::At(')')), class, table)),
        },
        faults: fault_if(
            !(stopped(s, class_from, Stop::At('(')) && stopped(s, args_from, Stop::At(')'))),
            Fault::UnterminatedBlock { at: i },
        ) + fault_if(
            !(0 <= lookup(table, class) < table.len()),
            Fault::UnknownClass { at: i, name: class },
        ),
    }
}

/// The edits for the constructions whose keywords stand at `hits`.
pub open spec fn new_edits(s: Seq<char>, table: Seq<Class>, hits: Seq<int>) -> Seq<Edit> {
    hits.map_values(|i: int| new_site(s, table, i).edit)
}

/// What was amiss with the constructions whose keywords stand at `hits`, in
/// their order.
pub open spec fn new_faults(s: Seq<char>, table: Seq<Class>, hits: Seq<int>) -> Seq<Fault>
    decreases hits.len(),
{
    if hits.len() == 0 {
        Seq::empty()
    } else {
        new_faults(s, table, hits.drop_last()) + new_site(s, table, hits.last()).faults
    }
}

/// The program with every construction turned into an expression that builds
/// the record and hands it the functions of its class. The table stays as it
/// is.
pub open spec fn rewrite_constructors(p: Program) -> Program {
    let hits = find_all(p.text, "new"@, 0);
    Program {
        text: apply_edits(p.text, new_edits(p.text, p.table, hits)),
        table: p.table,
        issues: p.issues + new_faults(p.text, p.table, hits),
    }
}

/// Whether the buffer holds the character.
pub fn has_char(buf: &Vec<char>, c: char) -> (r: bool)
    ensures
        r == buf@.contains(c),
{
    let mut i: usize = 0;
    while i < buf.len()
        invariant
            i <= buf.len(),
            forall|k: int| 0 <= k < i ==> buf@[k] != c,
        decreases buf.len() - i,
    {
        if buf[i] == c {
            return true;
        }
        i += 1;
    }
    false
}

/// Writes the arguments that hand a record its class's functions.
pub fn emit_method_refs(entry: &ClassEntry) -> (out: String)
    ensures
        out@ == method_refs(entry@.name, entry@.methods),
{
    let mut out = String::new();
    let ghost names = names_of(entry.methods@);
    let mut k: usize = 0;
    while k < entry.methods.len()
        invariant
            k <= entry.methods.len(),
            names == names_of(entry.methods@),
            out@ == method_refs(entry.name@, names.take(k as int)),
        decreases entry.methods.len() - k,
    {
        let ghost done = names.take(k as int);
        let ghost next = names.take(k + 1);
        assert(next.drop_last() == done);
        assert(next.last() == entry.methods@[k as int]@);
        if k > 0 {
            out.append(" ");
        }
        let one = emit_method_ref(entry.name.as_str(), entry.methods[k].as_str());
        out.append(one.as_str());
        assert(out@ == method_refs(entry.name@, next)) by {
            if k == 0 {
                assert(next[0] == entry.methods@[0]@);
                assert(done.len() == 0);
                assert(Seq::<char>::empty() + one@ == one@);
            }
        }
        k += 1;
    }
    assert(names.take(entry.methods.len() as int) == names);
    out
}

/// Writes the arguments with the class's functions among them.
pub fn augment(args: &str, entry: &ClassEntry) -> (out: String)
    ensures
        out@ == augmented(args@, entry@),
{
    assert(entry@.methods.len() == entry.methods.len());
    if entry.methods.len() == 0 {
        return String::from_str(args);
    }
    let text = chars_of(args);
    let len = text.len();
    let at = if len > 0 && text[len - 1] == '}' && has_char(&text, '{') {
        len - 1
    } else {
        len
    };
    let mut out = text_of(&text, 0, at);
    let end = find_stop_back(&text, at, Stop::PastBlank);
    if end > 0 && !Stop::AtAny(',', '{', '(').test(text[end - 1]) {
        out.append(", ");
    } else {
        assert(out@ + Seq::<char>::empty() == out@);
    }
    out.append(emit_method_refs(entry).as_str());
    out.append(text_of(&text, at, len).as_str());
    out
}

/// The construction whose keyword stands at `i`: its edit, and what was
/// amiss.
pub fn new_site_edit(buf: &Vec<char>, classes: &Vec<ClassEntry>, i: usize) -> (res: (
    PendingEdit,
    Vec<Issue>,
))
    ensures
        res.0@ == new_site(buf@, table_of(classes@), i as int).edit,
        faults_of(res.1@) == new_site(buf@, table_of(classes@), i as int).faults,
{
    let len = buf.len();
    let at = advance(len, 0, i);
    proof {
        reveal_strlit("new");
    }
    let class_from = advance(len, at, 4);
    let (class, args_from, opened) = collect_until(buf, class_from, 1, Stop::At('('));
    let (args, end, closed) = collect_until(buf, args_from, 1, Stop::At(')'));
    let k = find_class(classes, &class);
    let known = k < classes.len();
    let text = if known {
        emit_new(class.as_str(), augment(args.as_str(), &classes[k]).as_str())
    } else {
        emit_new(class.as_str(), args.as_str())
    };
    let mut found: Vec<Issue> = Vec::new();
    assert(faults_of(found@) == Seq::<Fault>::empty());
    note_if(&mut found, !(opened && closed), Issue::UnterminatedBlock { at: i });
    note_if(&mut found, !known, Issue::UnknownClass { at: i, name: class });
    (PendingEdit { start: at, end, text }, found)
}

impl Parser {
    /// Turns every construction into an expression that builds the record;
    /// where the table has the class, the expression hands the record the
    /// class's functions in the order in which the methods were met, and
    /// where it has not, the construction is noted.
    pub fn parse_constructor(&mut self)
        ensures
            final(self).program() == rewrite_constructors(old(self).program()),
            final(self).classes == old(self).classes,
            old(self).program().issues.is_prefix_of(final(self).program().issues),
    {
        proof {
            law_nothing_is_lost(self.program(), Seq::empty());
        }
        let buf = chars_of(self.src.as_str());
        let pat = chars_of("new");
        let hits = occurrences(&buf, &pat);
        let ghost table = table_of(self.classes@);
        let ghost before = faults_of(self.issues@);
        let mut edits: Vec<PendingEdit> = Vec::new();
        let mut k: usize = 0;
        assert(before + Seq::<Fault>::empty() == before);
        while k < hits.len()
            invariant
                k <= hits.len(),
                self.src == old(self).src,
                self.classes == old(self).classes,
                table == table_of(self.classes@),
                edits_of(edits@) == new_edits(buf@, table, positions(hits@).take(k as int)),
                faults_of(self.issues@) == before + new_faults(
                    buf@,
                    table,
                    positions(hits@).take(k as int),
                ),
            decreases hits.len() - k,
        {
            let (edit, found) = new_site_edit(&buf, &self.classes, hits[k]);
            let ghost waiting = edits_of(edits@);
            let ghost seen = positions(hits@).take(k as int);
            let ghost next = positions(hits@).take(k + 1);
            edits.push(edit);
            note_all(&mut self.issues, found);
            proof {
                assert(edits_of(edits@) =~= waiting.push(edit@));
                assert(next =~= seen.push(hits@[k as int] as int));
                assert(next.drop_last() == seen);
                assert(new_edits(buf@, table, next) =~= new_edits(buf@, table, seen).push(edit@));
                assert(before + (new_faults(buf@, table, seen) + faults_of(found@)) == before
                    + new_faults(buf@, table, seen) + faults_of(found@));
            }
            k += 1;
        }
        assert(positions(hits@).take(hits.len() as int) == positions(hits@));
        self.insert(edits);
    }
}

} // verus!
