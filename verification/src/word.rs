//! The word-splitting facade: alphanumeric runs.

use vstd::prelude::*;
use vstd::string::StrSliceExecFns;
use crate::model::emits;
use crate::model::func_items;
use crate::model::func_step;
use crate::model::lemma_func_step_valid;
use crate::runs::advance;
use crate::runs::obeys;

verus! {

/// Whether the character counts as alphanumeric.
pub uninterp spec fn is_alphanumeric_char(c: char) -> bool;

/// Relies on char::is_alphanumeric: whether the character lies in the Unicode
/// Alphabetic or Number categories, a function of the character alone.
#[verifier::external_body]
fn alphanumeric(c: char) -> (b: bool)
    ensures
        b == is_alphanumeric_char(c),
{
    c.is_alphanumeric()
}

/// The word separator predicate: every character that is not alphanumeric.
pub open spec fn word_sep() -> spec_fn(char) -> bool {
    |c: char| !is_alphanumeric_char(c)
}

/// A lazy splitter over views of a borrowed string: the maximal non-empty
/// runs of alphanumeric characters, in left-to-right order; every other
/// character separates. A zero-configuration specialisation of the
/// predicate-run splitter, not a distinct algorithm.
pub struct WordIterator<'a> {
    s: &'a str,
    l: usize,
    start: usize,
}

impl<'a> WordIterator<'a> {
    /// The characters of the source buffer.
    pub closed spec fn src(&self) -> Seq<char> {
        self.s@
    }

    /// The cursor, in character offsets; at `src().len()` it is exhausted.
    pub closed spec fn cursor(&self) -> int {
        self.start as int
    }

    /// The cached length agrees with the view and the cursor is in range.
    pub closed spec fn wf(&self) -> bool {
        &&& self.l == self.s@.len()
        &&& self.start <= self.l
    }

    /// The spans of the words still to be emitted.
    pub open spec fn remaining(&self) -> Seq<(int, int)> {
        func_items(self.src(), word_sep(), self.cursor())
    }

    /// Pulls the next word view, or reports exhaustion: one step of the
    /// predicate-run model under the word separator predicate.
    pub fn next(&mut self) -> (r: Option<&'a str>)
        requires
            old(self).wf(),
        ensures
            final(self).wf(),
            final(self).src() == old(self).src(),
            final(self).cursor() == func_step(old(self).src(), word_sep(), old(self).cursor()).1,
            emits(
                old(self).src(),
                func_step(old(self).src(), word_sep(), old(self).cursor()).0,
                r,
            ),
    {
        let f = |c: char| -> (b: bool)
            ensures
                b == !is_alphanumeric_char(c),
            {
                !alphanumeric(c)
            };
        proof {
            assert(obeys(f, word_sep()));
        }
        let (r, ns) = advance(self.s, self.l, self.start, &f);
        self.start = ns;
        r
    }

    /// Rewinds the cursor to the start position, making the splitter behave
    /// as freshly constructed.
    pub fn reset(&mut self)
        requires
            old(self).wf(),
        ensures
            final(self).wf(),
            final(self).src() == old(self).src(),
            final(self).cursor() == 0,
    {
        self.start = 0;
    }

    /// Counts the remaining words, consuming the splitter.
    #[verifier::loop_isolation(false)]
    pub fn count(self) -> (c: usize)
        requires
            self.wf(),
        ensures
            c == self.remaining().len(),
    {
        let ghost s0 = self.src();
        let ghost cur0 = self.cursor();
        let mut it = self;
        let mut c: usize = 0;
        loop
            invariant
                it.wf(),
                it.src() == s0,
                cur0 + c <= it.cursor() <= s0.len(),
                c + func_items(s0, word_sep(), it.cursor()).len() == func_items(
                    s0,
                    word_sep(),
                    cur0,
                ).len(),
            decreases s0.len() + 1 - it.cursor(),
        {
            let ghost curb = it.cursor();
            let r = it.next();
            proof {
                lemma_func_step_valid(s0, word_sep(), curb);
            }
            match r {
                Some(_) => {
                    c += 1;
                },
                None => {
                    proof {
                        assert(func_items(s0, word_sep(), curb).len() == 0);
                    }
                    return c;
                },
            }
        }
    }

    /// Applies `g` to each remaining word in order, consuming the splitter;
    /// equivalent to pulling until exhaustion.
    pub fn for_each<G: Fn(&'a str)>(self, g: G)
        requires
            self.wf(),
            forall|v: &'a str| #[trigger] call_requires(g, (v,)),
    {
        let mut it = self;
        loop
            invariant
                it.wf(),
                forall|v: &'a str| #[trigger] call_requires(g, (v,)),
            decreases it.src().len() - it.cursor(),
        {
            let ghost curb = it.cursor();
            let r = it.next();
            proof {
                lemma_func_step_valid(it.src(), word_sep(), curb);
            }
            match r {
                Some(v) => {
                    g(v);
                },
                None => {
                    return ;
                },
            }
        }
    }
}

/// Returns a word splitter over the given buffer, positioned at the start.
pub fn word_iter<'a>(s: &'a str) -> (it: WordIterator<'a>)
    ensures
        it.wf(),
        it.src() == s@,
        it.cursor() == 0,
{
    let l = s.unicode_len();
    WordIterator { s, l, start: 0 }
}

/// `Word` equips string slices with the word splitter.
pub trait Word<'a>: View<V = Seq<char>> {
    /// Returns a word splitter over this buffer, positioned at the start.
    fn word_iter(&'a self) -> (it: WordIterator<'a>)
        ensures
            it.wf(),
            it.src() == self@,
            it.cursor() == 0,
    ;
}

impl<'a> Word<'a> for str {
    fn word_iter(&'a self) -> (it: WordIterator<'a>) {
        word_iter(self)
    }
}

/// Reset restores determinism: a rewound word splitter holds exactly the
/// remaining words of a freshly constructed one over the same source, since
/// the words to come are a function of the source and the cursor alone.
pub proof fn lemma_reset_restores_fresh(rewound: WordIterator, fresh: WordIterator)
    requires
        rewound.src() == fresh.src(),
        rewound.cursor() == 0,
        fresh.cursor() == 0,
    ensures
        rewound.remaining() == fresh.remaining(),
{
}

} // verus!
