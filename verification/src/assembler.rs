//! The code assembler: an append-only, ordered text-fragment accumulator.
//!
//! Fragments are joined with exactly one blank line of separation. Rendering
//! is side-effect-free and idempotent; appending after a render is still
//! valid and affects only subsequent renders. The assembler knows nothing of
//! IDL semantics.
use vstd::prelude::*;

verus! {

/// The rendered form of an ordered fragment list: the fragments joined with
/// one blank line (two newlines) between consecutive fragments.
pub open spec fn spec_render(frags: Seq<Seq<char>>) -> Seq<char>
    decreases frags.len(),
{
    if frags.len() == 0 {
        Seq::empty()
    } else if frags.len() == 1 {
        frags[0]
    } else {
        spec_render(frags.drop_last()) + "\n\n"@ + frags.last()
    }
}

/// An ordered accumulator of generated text fragments. Its view is the
/// sequence of fragments appended so far, oldest first.
pub struct CodeBlock {
    frags: Vec<String>,
}

impl View for CodeBlock {
    type V = Seq<Seq<char>>;

    closed spec fn view(&self) -> Seq<Seq<char>> {
        Seq::new(self.frags@.len(), |i: int| self.frags@[i]@)
    }
}

impl CodeBlock {
    /// A fresh assembler holding no fragments.
    pub fn new() -> (r: CodeBlock)
        ensures
            r@ == Seq::<Seq<char>>::empty(),
    {
        let r = CodeBlock { frags: Vec::new() };
        proof {
            assert(r@ =~= Seq::<Seq<char>>::empty());
        }
        r
    }

    /// Appends one fragment after all fragments appended so far.
    pub fn add_block(&mut self, block: String)
        ensures
            final(self)@ == old(self)@.push(block@),
    {
        let ghost b = block@;
        self.frags.push(block);
        proof {
            assert(final(self)@ =~= old(self)@.push(b));
        }
    }

    /// Renders the accumulated fragments, joined with one blank line of
    /// separation. Reading `&self` only, a render never changes the
    /// accumulated fragments, so rendering is idempotent.
    pub fn render(&self) -> (r: String)
        ensures
            r@ == spec_render(self@),
    {
        let mut r = String::new();
        let mut i: usize = 0;
        while i < self.frags.len()
            invariant
                i <= self.frags@.len(),
                r@ == spec_render(self@.take(i as int)),
            decreases self.frags@.len() - i,
        {
            if i > 0 {
                r.append("\n\n");
            }
            r.append(self.frags[i].as_str());
            proof {
                assert(self@.take(i + 1).drop_last() =~= self@.take(i as int));
                assert(self@.take(i + 1).last() == self@[i as int]);
                if i == 0 {
                    assert(r@ =~= spec_render(self@.take(i + 1)));
                }
            }
            i = i + 1;
        }
        proof {
            assert(self@.take(self@.len() as int) =~= self@);
        }
        r
    }
}

} // verus!
