use crate::classes::rewrite_classes;
use crate::constructors::rewrite_constructors;
use crate::edits::{apply_edits, edits_of, splice, Edit, PendingEdit};
use crate::issues::{faults_of, Fault, Issue};
use crate::laws::{law_nothing_is_lost, law_output_begins_with_preamble};
use crate::symbols::{extends, methods_unique, table_of, Class, ClassEntry};
use crate::templates::PREAMBLE;
use crate::text::{chars_of, string_of};
use vstd::prelude::*;

verus! {

/// A program text with the classes that have been met in it and the issues
/// that came up.
pub ghost struct Program {
    pub text: Seq<char>,
    pub table: Seq<Class>,
    pub issues: Seq<Fault>,
}

/// The whole rewriting: classes, with their methods and the calls of
/// those, then constructions.
pub open spec fn transpiled(p: Program) -> Program {
    rewrite_constructors(rewrite_classes(p))
}

/// The preprocessor: the text it rewrites, the classes it has met, and the
/// issues that came up on the way.
pub struct Parser {
    pub src: String,
    pub classes: Vec<ClassEntry>,
    pub issues: Vec<Issue>,
}

impl Parser {
    /// The text, the classes and the issues as one value.
    pub open spec fn program(&self) -> Program {
        Program {
            text: self.src@,
            table: table_of(self.classes@),
            issues: faults_of(self.issues@),
        }
    }

    /// A preprocessor for the given text, which has met no class and no issue
    /// yet.
    pub fn new(src: String) -> (p: Parser)
        ensures
            p.src == src,
            p.classes@.len() == 0,
            p.issues@.len() == 0,
            p.program() == (Program {
                text: src@,
                table: Seq::empty(),
                issues: Seq::empty(),
            }),
    {
        let p = Parser { src, classes: Vec::new(), issues: Vec::new() };
        assert(table_of(p.classes@) == Seq::<Class>::empty());
        assert(faults_of(p.issues@) == Seq::<Fault>::empty());
        p
    }

    /// Carries out the edits on the text, the last of the list first, so that
    /// an edit is not moved by those that lie after it. For edits found in
    /// one scan from left to right that is the order of falling offsets.
    pub fn insert(&mut self, edits: Vec<PendingEdit>)
        ensures
            final(self).src@ == apply_edits(old(self).src@, edits_of(edits@)),
            final(self).classes == old(self).classes,
            final(self).issues == old(self).issues,
    {
        let mut buf = chars_of(self.src.as_str());
        let mut k: usize = edits.len();
        assert(edits_of(edits@).take(k as int) == edits_of(edits@));
        while k > 0
            invariant
                k <= edits.len(),
                apply_edits(old(self).src@, edits_of(edits@)) == apply_edits(
                    buf@,
                    edits_of(edits@).take(k as int),
                ),
            decreases k,
        {
            let ghost rest = edits_of(edits@).take(k as int);
            k -= 1;
            assert(rest.last() == edits@[k as int]@);
            assert(rest.drop_last() == edits_of(edits@).take(k as int));
            buf = splice(&buf, &edits[k]);
        }
        assert(edits_of(edits@).take(0) == Seq::<Edit>::empty());
        self.src = string_of(&buf);
    }

    /// Rewrites the text: first the classes, with their methods and the
    /// calls of those, then the constructions.
    pub fn parse(&mut self)
        ensures
            final(self).program() == transpiled(old(self).program()),
            extends(final(self).program().table, old(self).program().table),
            methods_unique(old(self).program().table) ==> methods_unique(
                final(self).program().table,
            ),
            old(self).program().issues.is_prefix_of(final(self).program().issues),
            PREAMBLE@.is_prefix_of(final(self).src@),
    {
        proof {
            law_nothing_is_lost(self.program(), Seq::empty());
            law_output_begins_with_preamble(self.program());
        }
        self.parse_classes();
        self.parse_constructor();
    }
}

} // verus!
