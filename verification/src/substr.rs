//! The literal-delimiter splitter.

use vstd::prelude::*;
use vstd::string::StrSliceExecFns;
use crate::model::emits;
use crate::model::first_match_from;
use crate::model::skip_matches_from;
use crate::model::lemma_substr_step_valid;
use crate::model::match_at;
use crate::model::substr_items;
use crate::model::substr_step;

verus! {

/// Decides whether the needle occurs in `s` exactly at position `i`, by
/// comparing character by character.
fn match_here(s: &str, n: &str, i: usize, l: usize, nl: usize) -> (b: bool)
    requires
        l == s@.len(),
        nl == n@.len(),
        i + nl <= l,
    ensures
        b == match_at(s@, n@, i as int),
{
    let mut j: usize = 0;
    while j < nl
        invariant
            l == s@.len(),
            nl == n@.len(),
            i + nl <= l,
            j <= nl,
            forall|k: int| 0 <= k < j ==> s@[i + k] == n@[k],
        decreases nl - j,
    {
        let cs = s.get_char(i + j);
        let cn = n.get_char(j);
        if cs != cn {
            proof {
                assert(s@.subrange(i as int, i + nl)[j as int] == s@[i + j]);
            }
            return false;
        }
        j += 1;
    }
    proof {
        assert(s@.subrange(i as int, i + nl) =~= n@);
    }
    true
}

/// Finds the leftmost occurrence of the needle at or after `from`.
fn find_match_from(s: &str, n: &str, from: usize, l: usize, nl: usize) -> (r: Option<usize>)
    requires
        l == s@.len(),
        nl == n@.len(),
        1 <= nl,
    ensures
        match r {
            Some(m) => first_match_from(s@, n@, from as int) == Some(m as int) && from <= m && m
                + nl <= l,
            None => first_match_from(s@, n@, from as int) is None,
        },
{
    if nl > l {
        return None;
    }
    let mut i: usize = from;
    while i <= l - nl
        invariant
            l == s@.len(),
            nl == n@.len(),
            1 <= nl <= l,
            from <= i,
            first_match_from(s@, n@, from as int) == first_match_from(s@, n@, i as int),
        decreases l - i,
    {
        if match_here(s, n, i, l, nl) {
            return Some(i);
        }
        i += 1;
    }
    None
}

/// Steps over the chain of needle occurrences starting exactly at `from`:
/// how collapsing mode absorbs a run of consecutive delimiters.
fn skip_matches(s: &str, n: &str, from: usize, l: usize, nl: usize) -> (t: usize)
    requires
        l == s@.len(),
        nl == n@.len(),
        1 <= nl,
        from <= l,
    ensures
        from <= t <= l,
        t == skip_matches_from(s@, n@, from as int),
{
    let mut i: usize = from;
    while nl <= l - i && match_here(s, n, i, l, nl)
        invariant
            l == s@.len(),
            nl == n@.len(),
            1 <= nl,
            from <= i <= l,
            skip_matches_from(s@, n@, from as int) == skip_matches_from(s@, n@, i as int),
        decreases l - i,
    {
        i += nl;
    }
    i
}

/// A lazy splitter over views of a borrowed string, separated by the
/// leftmost, non-overlapping occurrences of a needle substring. With an empty
/// needle it degenerates to one view per character. In collapsing mode (the
/// default) only the non-empty pieces between occurrences are emitted, so
/// delimiters at the boundaries and consecutive delimiters never produce
/// empty views; in all-mode every piece is emitted, empty or not.
pub struct SubstrIterator<'a> {
    s: &'a str,
    needle: &'a str,
    l: usize,
    needle_len: usize,
    start: usize,
    done: bool,
    emit_all: bool,
}

impl<'a> SubstrIterator<'a> {
    /// The characters of the source buffer.
    pub closed spec fn src(&self) -> Seq<char> {
        self.s@
    }

    /// The characters of the needle.
    pub closed spec fn needle_view(&self) -> Seq<char> {
        self.needle@
    }

    /// The cursor, in character offsets; `src().len() + 1` is the exhausted
    /// sentinel.
    pub closed spec fn cursor(&self) -> int {
        if self.done {
            self.s@.len() as int + 1
        } else {
            self.start as int
        }
    }

    /// Whether the splitter is in all-mode.
    pub closed spec fn emits_all(&self) -> bool {
        self.emit_all
    }

    /// The cached lengths agree with the views and the cursor is in range.
    pub closed spec fn wf(&self) -> bool {
        &&& self.l == self.s@.len()
        &&& self.needle_len == self.needle@.len()
        &&& self.start <= self.l
        &&& (self.done ==> self.start == self.l)
    }

    /// The spans of the items still to be emitted, in order.
    pub open spec fn remaining(&self) -> Seq<(int, int)> {
        substr_items(self.src(), self.needle_view(), self.cursor(), self.emits_all())
    }

    /// Pulls the next view, or reports exhaustion: one step of the model.
    pub fn next(&mut self) -> (r: Option<&'a str>)
        requires
            old(self).wf(),
        ensures
            final(self).wf(),
            final(self).src() == old(self).src(),
            final(self).needle_view() == old(self).needle_view(),
            final(self).emits_all() == old(self).emits_all(),
            final(self).cursor() == substr_step(
                old(self).src(),
                old(self).needle_view(),
                old(self).cursor(),
                old(self).emits_all(),
            ).1,
            emits(
                old(self).src(),
                substr_step(
                    old(self).src(),
                    old(self).needle_view(),
                    old(self).cursor(),
                    old(self).emits_all(),
                ).0,
                r,
            ),
    {
        if self.done {
            return None;
        }
        if self.needle_len == 0 {
            return self.next_char();
        }
        if self.l == 0 {
            if !self.emit_all {
                return None;
            }
            self.done = true;
            proof {
                assert(self.s@ =~= self.s@.subrange(0, 0));
            }
            return Some(self.s);
        }
        if self.emit_all {
            match find_match_from(self.s, self.needle, self.start, self.l, self.needle_len) {
                Some(m) => {
                    let v = self.s.substring_char(self.start, m);
                    self.start = m + self.needle_len;
                    Some(v)
                },
                None => {
                    if self.needle_len <= self.l - self.start {
                        let v = self.s.substring_char(self.start, self.l);
                        if self.start != 0 {
                            self.done = true;
                        }
                        self.start = self.l;
                        Some(v)
                    } else if self.needle_len <= self.l && match_here(
                        self.s,
                        self.needle,
                        self.l - self.needle_len,
                        self.l,
                        self.needle_len,
                    ) {
                        let v = self.s.substring_char(self.start, self.l);
                        self.start = self.l;
                        self.done = true;
                        Some(v)
                    } else if self.needle_len > self.l {
                        let v = self.s.substring_char(self.start, self.l);
                        self.start = self.l;
                        self.done = true;
                        Some(v)
                    } else {
                        None
                    }
                },
            }
        } else {
            let t = skip_matches(self.s, self.needle, self.start, self.l, self.needle_len);
            if t >= self.l {
                self.start = t;
                None
            } else {
                match find_match_from(self.s, self.needle, t, self.l, self.needle_len) {
                    Some(m) => {
                        let v = self.s.substring_char(t, m);
                        self.start = m + self.needle_len;
                        Some(v)
                    },
                    None => {
                        let v = self.s.substring_char(t, self.l);
                        self.start = self.l;
                        Some(v)
                    },
                }
            }
        }
    }

    /// Steps over exactly one character: the empty-needle mode.
    fn next_char(&mut self) -> (r: Option<&'a str>)
        requires
            old(self).wf(),
            old(self).cursor() <= old(self).src().len(),
            old(self).needle_view().len() == 0,
        ensures
            final(self).wf(),
            final(self).src() == old(self).src(),
            final(self).needle_view() == old(self).needle_view(),
            final(self).emits_all() == old(self).emits_all(),
            final(self).cursor() == substr_step(
                old(self).src(),
                old(self).needle_view(),
                old(self).cursor(),
                old(self).emits_all(),
            ).1,
            emits(
                old(self).src(),
                substr_step(
                    old(self).src(),
                    old(self).needle_view(),
                    old(self).cursor(),
                    old(self).emits_all(),
                ).0,
                r,
            ),
    {
        if self.l == 0 || self.start == self.l {
            return None;
        }
        let v = self.s.substring_char(self.start, self.start + 1);
        self.start = self.start + 1;
        Some(v)
    }

    /// Switches the splitter to all-mode, emulating verbatim string `split`
    /// methods: empty views at adjacent and boundary matches are emitted.
    pub fn all(self) -> (it: SubstrIterator<'a>)
        ensures
            self.wf() ==> it.wf(),
            it.src() == self.src(),
            it.needle_view() == self.needle_view(),
            it.cursor() == self.cursor(),
            it.emits_all(),
    {
        let mut it = self;
        it.emit_all = true;
        it
    }

    /// Rewinds the cursor to the start position; the mode is preserved, so
    /// the splitter behaves as freshly constructed with the same
    /// configuration.
    pub fn reset(&mut self)
        requires
            old(self).wf(),
        ensures
            final(self).wf(),
            final(self).src() == old(self).src(),
            final(self).needle_view() == old(self).needle_view(),
            final(self).emits_all() == old(self).emits_all(),
            final(self).cursor() == 0,
            final(self).remaining() == substr_items(
                old(self).src(),
                old(self).needle_view(),
                0,
                old(self).emits_all(),
            ),
    {
        self.start = 0;
        self.done = false;
    }

    /// Counts the remaining items, consuming the splitter.
    #[verifier::loop_isolation(false)]
    pub fn count(self) -> (c: usize)
        requires
            self.wf(),
            self.src().len() < usize::MAX,
        ensures
            c == self.remaining().len(),
    {
        let ghost s0 = self.src();
        let ghost n0 = self.needle_view();
        let ghost ea0 = self.emits_all();
        let ghost cur0 = self.cursor();
        let mut it = self;
        let mut c: usize = 0;
        loop
            invariant
                it.wf(),
                it.src() == s0,
                it.needle_view() == n0,
                it.emits_all() == ea0,
                s0.len() < usize::MAX,
                cur0 + c <= it.cursor() <= s0.len() + 1,
                0 <= cur0,
                c + substr_items(s0, n0, it.cursor(), ea0).len() == substr_items(
                    s0,
                    n0,
                    cur0,
                    ea0,
                ).len(),
            decreases s0.len() + 2 - it.cursor(),
        {
            let ghost curb = it.cursor();
            let r = it.next();
            proof {
                lemma_substr_step_valid(s0, n0, curb, ea0);
            }
            match r {
                Some(_) => {
                    c += 1;
                },
                None => {
                    proof {
                        assert(substr_items(s0, n0, curb, ea0).len() == 0);
                    }
                    return c;
                },
            }
        }
    }

    /// Applies `g` to each remaining item in order, consuming the splitter;
    /// equivalent to pulling until exhaustion.
    pub fn for_each<G: Fn(&'a str)>(self, g: G)
        requires
            self.wf(),
            forall|v: &'a str| #[trigger] call_requires(g, (v,)),
    {
        let ghost s0 = self.src();
        let ghost n0 = self.needle_view();
        let ghost ea0 = self.emits_all();
        let mut it = self;
        loop
            invariant
                it.wf(),
                it.src() == s0,
                it.needle_view() == n0,
                it.emits_all() == ea0,
                0 <= it.cursor() <= s0.len() + 1,
                forall|v: &'a str| #[trigger] call_requires(g, (v,)),
            decreases s0.len() + 2 - it.cursor(),
        {
            let ghost curb = it.cursor();
            let r = it.next();
            proof {
                lemma_substr_step_valid(s0, n0, curb, ea0);
            }
            match r {
                Some(v) => {
                    g(v);
                },
                None => {
                    return ;
                },
            }
        }
    }
}

/// `Substr` equips string slices with the literal-needle splitter.
pub trait Substr<'a>: View<V = Seq<char>> {
    /// Returns a splitter over this buffer with the given needle, positioned
    /// at the start, in collapsing mode.
    fn substr_iter(&'a self, needle: &'a str) -> (it: SubstrIterator<'a>)
        ensures
            it.wf(),
            it.src() == self@,
            it.needle_view() == needle@,
            it.cursor() == 0,
            !it.emits_all(),
    ;
}

impl<'a> Substr<'a> for str {
    fn substr_iter(&'a self, needle: &'a str) -> (it: SubstrIterator<'a>) {
        let l = self.unicode_len();
        let needle_len = needle.unicode_len();
        SubstrIterator { s: self, needle, l, needle_len, start: 0, done: false, emit_all: false }
    }
}

/// Reset restores determinism: a rewound splitter holds exactly the remaining
/// items of a freshly constructed one over the same source and needle in the
/// same mode, since the views to come are a function of that configuration
/// and the cursor alone.
pub proof fn lemma_reset_restores_fresh(rewound: SubstrIterator, fresh: SubstrIterator)
    requires
        rewound.src() == fresh.src(),
        rewound.needle_view() == fresh.needle_view(),
        rewound.emits_all() == fresh.emits_all(),
        rewound.cursor() == 0,
        fresh.cursor() == 0,
    ensures
        rewound.remaining() == fresh.remaining(),
{
}

} // verus!
