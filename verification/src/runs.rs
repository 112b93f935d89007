//! The predicate-run splitter.

use vstd::prelude::*;
use vstd::string::StrSliceExecFns;
use crate::model::emits;
use crate::model::first_sep_from;
use crate::model::first_word_from;
use crate::model::func_items;
use crate::model::func_step;
use crate::model::lemma_func_step_valid;

verus! {

/// Every result the executable predicate `f` can return agrees with the pure
/// predicate `p`: `p` is a deterministic reading of `f`. All contracts of the
/// predicate-run splitter are stated relative to every such reading.
pub open spec fn obeys<F: Fn(char) -> bool>(f: F, p: spec_fn(char) -> bool) -> bool {
    forall|c: char, b: bool| #[trigger] call_ensures(f, (c,), b) ==> b == p(c)
}

/// Finds the leftmost character at or after `from` that the predicate rejects:
/// where the next run opens.
pub(crate) fn find_word_from<F: Fn(char) -> bool>(s: &str, l: usize, from: usize, f: &F) -> (r:
    Option<usize>)
    requires
        l == s@.len(),
        from <= l,
        forall|c: char| #[trigger] call_requires(*f, (c,)),
    ensures
        r matches Some(t) ==> from <= t < l,
        forall|p: spec_fn(char) -> bool|
            #[trigger] obeys(*f, p) ==> match r {
                Some(t) => first_word_from(s@, p, from as int) == Some(t as int),
                None => first_word_from(s@, p, from as int) is None,
            },
{
    let mut i: usize = from;
    while i < l
        invariant
            l == s@.len(),
            from <= i <= l,
            forall|c: char| #[trigger] call_requires(*f, (c,)),
            forall|p: spec_fn(char) -> bool|
                #[trigger] obeys(*f, p) ==> first_word_from(s@, p, from as int) == first_word_from(
                    s@,
                    p,
                    i as int,
                ),
        decreases l - i,
    {
        let c = s.get_char(i);
        let b = (*f)(c);
        if !b {
            proof {
                assert forall|p: spec_fn(char) -> bool| #[trigger]
                    obeys(*f, p) implies first_word_from(s@, p, from as int) == Some(i as int) by {
                    assert(call_ensures(*f, (c,), b));
                    assert(!p(s@[i as int]));
                }
            }
            return Some(i);
        }
        proof {
            assert forall|p: spec_fn(char) -> bool| #[trigger]
                obeys(*f, p) implies first_word_from(s@, p, from as int) == first_word_from(
                s@,
                p,
                i + 1,
            ) by {
                assert(call_ensures(*f, (c,), b));
                assert(p(s@[i as int]));
            }
        }
        i += 1;
    }
    None
}

/// Finds the leftmost character at or after `from` that the predicate
/// accepts: the separator closing the current run.
pub(crate) fn find_sep_from<F: Fn(char) -> bool>(s: &str, l: usize, from: usize, f: &F) -> (r:
    Option<usize>)
    requires
        l == s@.len(),
        from <= l,
        forall|c: char| #[trigger] call_requires(*f, (c,)),
    ensures
        r matches Some(m) ==> from <= m < l,
        forall|p: spec_fn(char) -> bool|
            #[trigger] obeys(*f, p) ==> match r {
                Some(m) => first_sep_from(s@, p, from as int) == Some(m as int),
                None => first_sep_from(s@, p, from as int) is None,
            },
{
    let mut i: usize = from;
    while i < l
        invariant
            l == s@.len(),
            from <= i <= l,
            forall|c: char| #[trigger] call_requires(*f, (c,)),
            forall|p: spec_fn(char) -> bool|
                #[trigger] obeys(*f, p) ==> first_sep_from(s@, p, from as int) == first_sep_from(
                    s@,
                    p,
                    i as int,
                ),
        decreases l - i,
    {
        let c = s.get_char(i);
        let b = (*f)(c);
        if b {
            proof {
                assert forall|p: spec_fn(char) -> bool| #[trigger]
                    obeys(*f, p) implies first_sep_from(s@, p, from as int) == Some(i as int) by {
                    assert(call_ensures(*f, (c,), b));
                    assert(p(s@[i as int]));
                }
            }
            return Some(i);
        }
        proof {
            assert forall|p: spec_fn(char) -> bool| #[trigger]
                obeys(*f, p) implies first_sep_from(s@, p, from as int) == first_sep_from(
                s@,
                p,
                i + 1,
            ) by {
                assert(call_ensures(*f, (c,), b));
                assert(!p(s@[i as int]));
            }
        }
        i += 1;
    }
    None
}

/// One pull of the predicate-run splitter over `s` from cursor `start`: skips
/// leading separators, then returns the maximal run view together with the
/// cursor just past the separator that closed it.
pub(crate) fn advance<'a, F: Fn(char) -> bool>(s: &'a str, l: usize, start: usize, f: &F) -> (res: (
    Option<&'a str>,
    usize,
))
    requires
        l == s@.len(),
        start <= l,
        forall|c: char| #[trigger] call_requires(*f, (c,)),
    ensures
        start <= res.1 <= l,
        res.0 matches Some(_) ==> start < res.1,
        res.0 is None ==> res.1 == l,
        start == l ==> res.0 is None,
        res.0 matches Some(v) ==> exists|a: int, b: int|
            start <= a < b <= res.1 && b <= s@.len() && v@ == s@.subrange(a, b),
        forall|p: spec_fn(char) -> bool|
            #[trigger] obeys(*f, p) ==> {
                &&& res.1 == func_step(s@, p, start as int).1
                &&& emits(s@, func_step(s@, p, start as int).0, res.0)
            },
{
    match find_word_from(s, l, start, f) {
        None => (None, l),
        Some(t) => match find_sep_from(s, l, t + 1, f) {
            Some(m) => {
                let v = s.substring_char(t, m);
                proof {
                    assert(t < m <= l && v@ == s@.subrange(t as int, m as int));
                }
                (Some(v), m + 1)
            },
            None => {
                let v = s.substring_char(t, l);
                proof {
                    assert(t < l && v@ == s@.subrange(t as int, l as int));
                }
                (Some(v), l)
            },
        },
    }
}

/// A lazy splitter over views of a borrowed string: the maximal non-empty
/// runs of consecutive characters for which the separator predicate is false,
/// in left-to-right order. Separator runs are always collapsed, so no empty
/// view is ever emitted.
pub struct FuncIterator<'a, F: Fn(char) -> bool> {
    f: F,
    s: &'a str,
    l: usize,
    start: usize,
}

impl<'a, F: Fn(char) -> bool> FuncIterator<'a, F> {
    /// The characters of the source buffer.
    pub closed spec fn src(&self) -> Seq<char> {
        self.s@
    }

    /// The executable separator predicate.
    pub closed spec fn func(&self) -> F {
        self.f
    }

    /// The cursor, in character offsets; at `src().len()` it is exhausted.
    pub closed spec fn cursor(&self) -> int {
        self.start as int
    }

    /// The cached length agrees with the view, the cursor is in range and the
    /// predicate accepts every character.
    pub closed spec fn wf(&self) -> bool {
        &&& self.l == self.s@.len()
        &&& self.start <= self.l
        &&& forall|c: char| #[trigger] call_requires(self.f, (c,))
    }

    /// The spans of the runs still to be emitted under a deterministic
    /// reading `p` of the predicate.
    pub open spec fn remaining(&self, p: spec_fn(char) -> bool) -> Seq<(int, int)> {
        func_items(self.src(), p, self.cursor())
    }

    /// Pulls the next run view, or reports exhaustion: one step of the model,
    /// under every deterministic reading of the predicate.
    pub fn next(&mut self) -> (r: Option<&'a str>)
        requires
            old(self).wf(),
        ensures
            final(self).wf(),
            final(self).src() == old(self).src(),
            final(self).func() == old(self).func(),
            old(self).cursor() <= final(self).cursor() <= old(self).src().len(),
            r matches Some(_) ==> old(self).cursor() < final(self).cursor(),
            r is None ==> final(self).cursor() == old(self).src().len(),
            old(self).cursor() == old(self).src().len() ==> r is None,
            r matches Some(v) ==> exists|a: int, b: int|
                old(self).cursor() <= a < b <= final(self).cursor() && b <= old(self).src().len()
                    && v@ == old(self).src().subrange(a, b),
            forall|p: spec_fn(char) -> bool|
                #[trigger] obeys(old(self).func(), p) ==> {
                    &&& final(self).cursor() == func_step(
                        old(self).src(),
                        p,
                        old(self).cursor(),
                    ).1
                    &&& emits(old(self).src(), func_step(old(self).src(), p, old(self).cursor()).0, r)
                },
    {
        let (r, ns) = advance(self.s, self.l, self.start, &self.f);
        self.start = ns;
        r
    }

    /// Rewinds the cursor to the start position, making the splitter behave
    /// as freshly constructed.
    pub fn reset(&mut self)
        requires
            old(self).wf(),
        ensures
            final(self).wf(),
            final(self).src() == old(self).src(),
            final(self).func() == old(self).func(),
            final(self).cursor() == 0,
    {
        self.start = 0;
    }

    /// Counts the remaining runs, consuming the splitter.
    #[verifier::loop_isolation(false)]
    pub fn count(self) -> (c: usize)
        requires
            self.wf(),
        ensures
            forall|p: spec_fn(char) -> bool|
                #[trigger] obeys(self.func(), p) ==> c == self.remaining(p).len(),
    {
        let ghost s0 = self.src();
        let ghost cur0 = self.cursor();
        let mut it = self;
        let mut c: usize = 0;
        loop
            invariant
                it.wf(),
                it.src() == s0,
                it.func() == self.func(),
                cur0 + c <= it.cursor() <= s0.len(),
                forall|p: spec_fn(char) -> bool|
                    #[trigger] obeys(self.func(), p) ==> c + func_items(s0, p, it.cursor()).len()
                        == func_items(s0, p, cur0).len(),
            decreases s0.len() + 1 - it.cursor(),
        {
            let ghost curb = it.cursor();
            let r = it.next();
            match r {
                Some(_) => {
                    proof {
                        assert forall|p: spec_fn(char) -> bool| #[trigger]
                            obeys(self.func(), p) implies c + 1 + func_items(
                            s0,
                            p,
                            it.cursor(),
                        ).len() == func_items(s0, p, cur0).len() by {
                            lemma_func_step_valid(s0, p, curb);
                        }
                    }
                    c += 1;
                },
                None => {
                    proof {
                        assert forall|p: spec_fn(char) -> bool| #[trigger]
                            obeys(self.func(), p) implies c == func_items(s0, p, cur0).len() by {
                            assert(func_step(s0, p, curb).0 is None);
                            assert(func_items(s0, p, curb).len() == 0);
                        }
                    }
                    return c;
                },
            }
        }
    }

    /// Applies `g` to each remaining run in order, consuming the splitter;
    /// equivalent to pulling until exhaustion.
    pub fn for_each<G: Fn(&'a str)>(self, g: G)
        requires
            self.wf(),
            forall|v: &'a str| #[trigger] call_requires(g, (v,)),
    {
        let mut it = self;
        loop
            invariant
                it.wf(),
                forall|v: &'a str| #[trigger] call_requires(g, (v,)),
            decreases it.src().len() - it.cursor(),
        {
            let r = it.next();
            match r {
                Some(v) => {
                    g(v);
                },
                None => {
                    return ;
                },
            }
        }
    }
}

/// `Func` equips string slices with the predicate-run splitter.
pub trait Func<'a>: View<V = Seq<char>> {
    /// Returns a run splitter over this buffer that treats exactly the
    /// characters satisfying `f` as separators.
    fn func_iter<F: Fn(char) -> bool>(&'a self, f: F) -> (it: FuncIterator<'a, F>)
        requires
            forall|c: char| #[trigger] call_requires(f, (c,)),
        ensures
            it.wf(),
            it.src() == self@,
            it.func() == f,
            it.cursor() == 0,
    ;
}

impl<'a> Func<'a> for str {
    fn func_iter<F: Fn(char) -> bool>(&'a self, f: F) -> (it: FuncIterator<'a, F>) {
        let l = self.unicode_len();
        FuncIterator { f, s: self, l, start: 0 }
    }
}

/// Reset restores determinism: under any deterministic reading `p` of the
/// predicate, a rewound splitter holds exactly the remaining runs of a
/// freshly constructed one over the same source, since the runs to come are a
/// function of the source, the predicate and the cursor alone.
pub proof fn lemma_reset_restores_fresh<'a, F: Fn(char) -> bool>(
    rewound: FuncIterator<'a, F>,
    fresh: FuncIterator<'a, F>,
    p: spec_fn(char) -> bool,
)
    requires
        rewound.src() == fresh.src(),
        rewound.cursor() == 0,
        fresh.cursor() == 0,
    ensures
        rewound.remaining(p) == fresh.remaining(p),
{
}

} // verus!
