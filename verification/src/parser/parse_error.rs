use crate::syntax::SyntaxKind;
use crate::tree::{dec_spec, push_char, push_dec};
use vstd::prelude::*;
use vstd::string::*;

verus! {

/// A half-open range of character offsets into the source.
#[derive(Clone, Copy, Debug, PartialEq, Eq, Structural)]
pub struct TextRange {
    pub start: usize,
    pub end: usize,
}

/// One recorded diagnostic: the kinds that would have been accepted, the
/// kind that was found (none at end of input), and where.
#[derive(Debug)]
pub struct ParseError {
    pub expected: Vec<SyntaxKind>,
    pub found: Option<SyntaxKind>,
    pub range: TextRange,
}

impl ParseError {
    /// An error always expects at least one kind, and speaks only of kinds a
    /// token can have.
    pub open spec fn wf(&self) -> bool {
        &&& self.expected@.len() >= 1
        &&& forall|i: int| 0 <= i < self.expected@.len() ==> self.expected@[i].is_terminal()
        &&& match self.found {
            Some(k) => k.is_terminal(),
            None => true,
        }
    }

    /// The rendered form: `error at <start>..<end>: expected <kind>`, and
    /// `, but found <kind>` when a token of the wrong kind was there.
    pub open spec fn spec_render(&self) -> Seq<char> {
        "error at "@ + dec_spec(self.range.start as nat) + ".."@ + dec_spec(self.range.end as nat)
            + ": expected "@ + self.expected@[0].spec_description() + (match self.found {
            Some(k) => ", but found "@ + k.spec_description(),
            None => Seq::<char>::empty(),
        })
    }

    /// Renders the error as text.
    pub fn render(&self) -> (r: String)
        requires
            self.expected@.len() >= 1,
        ensures
            r@ == self.spec_render(),
    {
        let mut out = String::new();
        out.append("error at ");
        push_dec(&mut out, self.range.start);
        out.append("..");
        push_dec(&mut out, self.range.end);
        out.append(": expected ");
        out.append(self.expected[0].description());
        match self.found {
            Some(k) => {
                out.append(", but found ");
                out.append(k.description());
            },
            None => {},
        }
        proof {
            assert(out@ =~= self.spec_render());
        }
        out
    }

    /// A field-for-field copy.
    pub fn duplicate(&self) -> (r: ParseError)
        ensures
            r.expected@ == self.expected@,
            r.found == self.found,
            r.range == self.range,
            r.wf() == self.wf(),
    {
        let mut expected: Vec<SyntaxKind> = Vec::new();
        let mut i: usize = 0;
        while i < self.expected.len()
            invariant
                0 <= i <= self.expected@.len(),
                expected@ == self.expected@.take(i as int),
            decreases self.expected@.len() - i,
        {
            expected.push(self.expected[i]);
            proof {
                assert(self.expected@.take(i + 1) =~= self.expected@.take(i as int).push(
                    self.expected@[i as int],
                ));
            }
            i = i + 1;
        }
        proof {
            assert(self.expected@.take(self.expected@.len() as int) =~= self.expected@);
        }
        ParseError { expected, found: self.found, range: self.range }
    }
}

} // verus!
