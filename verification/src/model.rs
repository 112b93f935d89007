//! Mathematical model of the two splitting disciplines.
//!
//! Both iterator engines are specified against pure functions over `Seq<char>`:
//! a single pull is modelled by a step function from a cursor to an optional
//! emitted span (a pair of character offsets into the source) and a new
//! cursor, and a whole run of pulls by the sequence of spans the steps emit.

use vstd::prelude::*;

verus! {

/// The needle `n` occurs in `s` exactly at position `i`.
pub open spec fn match_at(s: Seq<char>, n: Seq<char>, i: int) -> bool {
    &&& 0 <= i
    &&& i + n.len() <= s.len()
    &&& s.subrange(i, i + n.len()) == n
}

/// Position of the leftmost occurrence of a non-empty needle at or after `j`.
pub open spec fn first_match_from(s: Seq<char>, n: Seq<char>, j: int) -> Option<int>
    decreases s.len() + 1 - j,
{
    if j < 0 || n.len() == 0 || j + n.len() > s.len() {
        None
    } else if match_at(s, n, j) {
        Some(j)
    } else {
        first_match_from(s, n, j + 1)
    }
}

/// The position reached from `j` by stepping over the chain of needle
/// occurrences that start exactly at `j`: how collapsing mode absorbs a run
/// of consecutive delimiters, whole needle lengths at a time.
pub open spec fn skip_matches_from(s: Seq<char>, n: Seq<char>, j: int) -> int
    decreases s.len() + 1 - j,
{
    if j < 0 || n.len() == 0 || !match_at(s, n, j) {
        j
    } else {
        skip_matches_from(s, n, j + n.len())
    }
}

pub proof fn lemma_first_match_from(s: Seq<char>, n: Seq<char>, j: int)
    requires
        0 <= j,
        n.len() >= 1,
    ensures
        match first_match_from(s, n, j) {
            Some(m) => j <= m && m + n.len() <= s.len() && match_at(s, n, m) && (forall|i: int|
                j <= i < m ==> !match_at(s, n, i)),
            None => forall|i: int| j <= i ==> !match_at(s, n, i),
        },
    decreases s.len() + 1 - j,
{
    if j + n.len() > s.len() {
        assert forall|i: int| j <= i implies !match_at(s, n, i) by {}
    } else if !match_at(s, n, j) {
        lemma_first_match_from(s, n, j + 1);
    }
}

pub proof fn lemma_skip_matches_from(s: Seq<char>, n: Seq<char>, j: int)
    requires
        0 <= j,
        n.len() >= 1,
    ensures
        j <= skip_matches_from(s, n, j),
        j <= s.len() ==> skip_matches_from(s, n, j) <= s.len(),
        !match_at(s, n, skip_matches_from(s, n, j)),
    decreases s.len() + 1 - j,
{
    if match_at(s, n, j) {
        lemma_skip_matches_from(s, n, j + n.len());
    }
}

/// One pull of the literal-delimiter splitter.
///
/// The cursor lives in `0 ..= s.len() + 1`; `s.len() + 1` is the exhausted
/// sentinel. The result pairs the emitted span, if any, with the new cursor.
/// With an empty needle the splitter walks one character at a time; with an
/// empty source, all-mode emits the single empty span once and collapsing
/// mode nothing. Otherwise a needle longer than the source can never match,
/// and the whole source is the one span of either mode. In all-mode a span
/// runs from the cursor to the next match (or, when no match remains, to the
/// end, the end case also firing when the source's suffix of needle length is
/// itself a match). In collapsing mode the leftmost, non-overlapping
/// occurrences of the needle are the split points and only the non-empty
/// pieces between them are emitted: a pull steps over the chain of
/// occurrences at the cursor, then emits from there to the next occurrence or
/// the end.
pub open spec fn substr_step(s: Seq<char>, n: Seq<char>, cur: int, emit_all: bool) -> (Option<
    (int, int),
>, int) {
    let l = s.len() as int;
    let nl = n.len() as int;
    if cur > l {
        (None::<(int, int)>, cur)
    } else if nl == 0 {
        if l == 0 || cur == l {
            (None::<(int, int)>, cur)
        } else {
            (Some((cur, cur + 1)), cur + 1)
        }
    } else if l == 0 {
        if emit_all {
            (Some((0, 0)), 1)
        } else {
            (None::<(int, int)>, cur)
        }
    } else if emit_all {
        match first_match_from(s, n, cur) {
            Some(m) => (Some((cur, m)), m + nl),
            None => if cur + nl <= l {
                (Some((cur, l)), if cur == 0 { l } else { l + 1 })
            } else if nl <= l && match_at(s, n, l - nl) {
                (Some((cur, l)), l + 1)
            } else if nl > l {
                (Some((cur, l)), l + 1)
            } else {
                (None::<(int, int)>, cur)
            },
        }
    } else {
        let t = skip_matches_from(s, n, cur);
        if t >= l {
            (None::<(int, int)>, t)
        } else {
            match first_match_from(s, n, t) {
                Some(m) => (Some((t, m)), m + nl),
                None => (Some((t, l)), l),
            }
        }
    }
}

/// Every step stays inside the cursor range, moves the cursor forward, and
/// only emits spans that lie on valid character offsets; a pull that emits
/// strictly advances the cursor, and collapsing mode never emits an empty
/// span.
pub proof fn lemma_substr_step_valid(s: Seq<char>, n: Seq<char>, cur: int, emit_all: bool)
    requires
        0 <= cur,
    ensures
        cur <= substr_step(s, n, cur, emit_all).1,
        cur > s.len() ==> substr_step(s, n, cur, emit_all).0 is None,
        substr_step(s, n, cur, emit_all).0 is Some ==> {
            let (sp, c2) = (substr_step(s, n, cur, emit_all).0.unwrap(), substr_step(
                s,
                n,
                cur,
                emit_all,
            ).1);
            &&& cur < c2 <= s.len() + 1
            &&& 0 <= sp.0 <= sp.1 <= s.len()
            &&& cur <= sp.0 && sp.1 <= c2
            &&& (!emit_all && n.len() > 0 ==> sp.0 < sp.1)
        },
{
    let l = s.len() as int;
    let nl = n.len() as int;
    if cur > l || l == 0 || nl == 0 {
    } else if emit_all {
        lemma_first_match_from(s, n, cur);
    } else {
        lemma_skip_matches_from(s, n, cur);
        let t = skip_matches_from(s, n, cur);
        if t < l {
            lemma_first_match_from(s, n, t);
        }
    }
}

/// Once a pull reports exhaustion, every later pull reports it too: the step
/// that emitted nothing leaves a cursor from which nothing is ever emitted.
pub proof fn lemma_substr_step_exhaustion(s: Seq<char>, n: Seq<char>, cur: int, emit_all: bool)
    requires
        0 <= cur,
        substr_step(s, n, cur, emit_all).0 is None,
    ensures
        substr_step(s, n, substr_step(s, n, cur, emit_all).1, emit_all).0 is None,
        substr_step(s, n, substr_step(s, n, cur, emit_all).1, emit_all).1 == substr_step(
            s,
            n,
            cur,
            emit_all,
        ).1,
{
    let l = s.len() as int;
    let nl = n.len() as int;
    let c2 = substr_step(s, n, cur, emit_all).1;
    if cur > l || nl == 0 || l == 0 {
    } else if emit_all {
        lemma_first_match_from(s, n, cur);
    } else {
        lemma_skip_matches_from(s, n, cur);
        assert(c2 == l);
        lemma_skip_matches_from(s, n, c2);
    }
}

/// The spans of every item still to be emitted from cursor `cur` on.
pub open spec fn substr_items(s: Seq<char>, n: Seq<char>, cur: int, emit_all: bool) -> Seq<
    (int, int),
>
    decreases s.len() + 2 - cur,
    via substr_items_decreases
{
    if cur < 0 {
        Seq::<(int, int)>::empty()
    } else {
        match substr_step(s, n, cur, emit_all).0 {
            Some(sp) => seq![sp] + substr_items(s, n, substr_step(s, n, cur, emit_all).1, emit_all),
            None => Seq::<(int, int)>::empty(),
        }
    }
}

#[via_fn]
proof fn substr_items_decreases(s: Seq<char>, n: Seq<char>, cur: int, emit_all: bool) {
    if cur >= 0 {
        lemma_substr_step_valid(s, n, cur, emit_all);
    }
}

/// The returned view agrees with the span the model asks for: a view is
/// returned exactly when a span is emitted, and it holds exactly the span's
/// characters.
pub open spec fn emits(s: Seq<char>, sp: Option<(int, int)>, r: Option<&str>) -> bool {
    match sp {
        Some(q) => r matches Some(v) && v@ == s.subrange(q.0, q.1),
        None => r is None,
    }
}

/// Position of the leftmost separator character at or after `j`.
pub open spec fn first_sep_from(s: Seq<char>, p: spec_fn(char) -> bool, j: int) -> Option<int>
    decreases s.len() + 1 - j,
{
    if j < 0 || j >= s.len() {
        None
    } else if p(s[j]) {
        Some(j)
    } else {
        first_sep_from(s, p, j + 1)
    }
}

/// Position of the leftmost non-separator character at or after `j`: where
/// the next run opens.
pub open spec fn first_word_from(s: Seq<char>, p: spec_fn(char) -> bool, j: int) -> Option<int>
    decreases s.len() + 1 - j,
{
    if j < 0 || j >= s.len() {
        None
    } else if !p(s[j]) {
        Some(j)
    } else {
        first_word_from(s, p, j + 1)
    }
}

pub proof fn lemma_first_sep_from(s: Seq<char>, p: spec_fn(char) -> bool, j: int)
    requires
        0 <= j,
    ensures
        match first_sep_from(s, p, j) {
            Some(m) => j <= m < s.len() && p(s[m]) && (forall|i: int| j <= i < m ==> !p(s[i])),
            None => forall|i: int| j <= i < s.len() ==> !p(s[i]),
        },
    decreases s.len() + 1 - j,
{
    if j < s.len() && !p(s[j]) {
        lemma_first_sep_from(s, p, j + 1);
    }
}

pub proof fn lemma_first_word_from(s: Seq<char>, p: spec_fn(char) -> bool, j: int)
    requires
        0 <= j,
    ensures
        match first_word_from(s, p, j) {
            Some(t) => j <= t < s.len() && !p(s[t]) && (forall|i: int| j <= i < t ==> p(s[i])),
            None => forall|i: int| j <= i < s.len() ==> p(s[i]),
        },
    decreases s.len() + 1 - j,
{
    if j < s.len() && p(s[j]) {
        lemma_first_word_from(s, p, j + 1);
    }
}

/// One pull of the predicate-run splitter under separator predicate `p`.
///
/// The cursor lives in `0 ..= s.len()`; at the end it is exhausted. A pull
/// skips separators up to the first run character, emits the maximal run from
/// there to the next separator (or the end), and leaves the cursor just past
/// that separator.
pub open spec fn func_step(s: Seq<char>, p: spec_fn(char) -> bool, cur: int) -> (Option<
    (int, int),
>, int) {
    let l = s.len() as int;
    if cur >= l {
        (None::<(int, int)>, cur)
    } else {
        match first_word_from(s, p, cur) {
            Some(t) => match first_sep_from(s, p, t + 1) {
                Some(m) => (Some((t, m)), m + 1),
                None => (Some((t, l)), l),
            },
            None => (None::<(int, int)>, l),
        }
    }
}

/// Every step of the predicate-run splitter moves the cursor forward within
/// the buffer and emits only non-empty spans on valid character offsets.
pub proof fn lemma_func_step_valid(s: Seq<char>, p: spec_fn(char) -> bool, cur: int)
    requires
        0 <= cur,
    ensures
        cur <= func_step(s, p, cur).1,
        cur <= s.len() ==> func_step(s, p, cur).1 <= s.len(),
        func_step(s, p, cur).0 is Some ==> {
            let sp = func_step(s, p, cur).0.unwrap();
            &&& cur < func_step(s, p, cur).1
            &&& 0 <= sp.0 < sp.1 <= s.len()
            &&& cur <= sp.0
        },
{
    if cur < s.len() {
        lemma_first_word_from(s, p, cur);
        match first_word_from(s, p, cur) {
            Some(t) => {
                lemma_first_sep_from(s, p, t + 1);
            },
            None => {},
        }
    }
}

/// Once the predicate-run splitter reports exhaustion, every later pull
/// reports it too.
pub proof fn lemma_func_step_exhaustion(s: Seq<char>, p: spec_fn(char) -> bool, cur: int)
    requires
        0 <= cur,
        func_step(s, p, cur).0 is None,
    ensures
        func_step(s, p, func_step(s, p, cur).1).0 is None,
        func_step(s, p, func_step(s, p, cur).1).1 == func_step(s, p, cur).1,
{
}

/// The spans of every run still to be emitted from cursor `cur` on.
pub open spec fn func_items(s: Seq<char>, p: spec_fn(char) -> bool, cur: int) -> Seq<(int, int)>
    decreases s.len() + 1 - cur,
    via func_items_decreases
{
    if cur < 0 {
        Seq::<(int, int)>::empty()
    } else {
        match func_step(s, p, cur).0 {
            Some(sp) => seq![sp] + func_items(s, p, func_step(s, p, cur).1),
            None => Seq::<(int, int)>::empty(),
        }
    }
}

#[via_fn]
proof fn func_items_decreases(s: Seq<char>, p: spec_fn(char) -> bool, cur: int) {
    if cur >= 0 {
        lemma_func_step_valid(s, p, cur);
    }
}

/// Multi-byte safety at the item level: every span the literal splitter still
/// emits lies on valid character offsets of the buffer — a view never
/// truncates an encoded character — and while the needle is non-empty,
/// collapsing mode never emits an empty view.
pub proof fn lemma_substr_items_valid(s: Seq<char>, n: Seq<char>, cur: int, emit_all: bool)
    requires
        0 <= cur,
    ensures
        forall|k: int|
            0 <= k < substr_items(s, n, cur, emit_all).len() ==> {
                let sp = #[trigger] substr_items(s, n, cur, emit_all)[k];
                &&& 0 <= sp.0 <= sp.1 <= s.len()
                &&& (!emit_all && n.len() > 0 ==> sp.0 < sp.1)
                &&& (n.len() == 0 ==> sp.1 == sp.0 + 1)
            },
    decreases s.len() + 2 - cur,
{
    lemma_substr_step_valid(s, n, cur, emit_all);
    match substr_step(s, n, cur, emit_all).0 {
        Some(sp0) => {
            let c2 = substr_step(s, n, cur, emit_all).1;
            lemma_substr_items_valid(s, n, c2, emit_all);
            let rest = substr_items(s, n, c2, emit_all);
            assert(substr_items(s, n, cur, emit_all) == seq![sp0] + rest);
            assert forall|k: int| 0 < k < substr_items(s, n, cur, emit_all).len() implies
                substr_items(s, n, cur, emit_all)[k] == rest[k - 1] by {}
        },
        None => {},
    }
}

/// No character is emitted twice: the spans the literal splitter still emits
/// come in left-to-right order and never overlap, in either mode.
pub proof fn lemma_substr_items_disjoint(s: Seq<char>, n: Seq<char>, cur: int, emit_all: bool)
    requires
        0 <= cur,
    ensures
        forall|k: int|
            0 <= k < substr_items(s, n, cur, emit_all).len() ==> cur <= (#[trigger] substr_items(
                s,
                n,
                cur,
                emit_all,
            )[k]).0,
        forall|k1: int, k2: int|
            0 <= k1 < k2 < substr_items(s, n, cur, emit_all).len() ==> (#[trigger] substr_items(
                s,
                n,
                cur,
                emit_all,
            )[k1]).1 <= (#[trigger] substr_items(s, n, cur, emit_all)[k2]).0,
    decreases s.len() + 2 - cur,
{
    lemma_substr_step_valid(s, n, cur, emit_all);
    match substr_step(s, n, cur, emit_all).0 {
        Some(sp0) => {
            let c2 = substr_step(s, n, cur, emit_all).1;
            lemma_substr_items_disjoint(s, n, c2, emit_all);
            let rest = substr_items(s, n, c2, emit_all);
            assert(substr_items(s, n, cur, emit_all) == seq![sp0] + rest);
            assert forall|k: int| 0 < k < substr_items(s, n, cur, emit_all).len() implies
                substr_items(s, n, cur, emit_all)[k] == rest[k - 1] by {}
        },
        None => {},
    }
}

/// Boundary coverage: under separator predicate `p`, the runs still to be
/// emitted from cursor `cur` on lie in order within the buffer, hold no
/// separator character, are separated pairwise, and cover every non-separator
/// character at or after `cur`. Every character of the remaining buffer thus
/// belongs either to exactly one emitted run or to a skipped separator span,
/// and the runs and separator spans together, in original order, reconstruct
/// the remaining buffer.
pub proof fn lemma_func_items_partition(s: Seq<char>, p: spec_fn(char) -> bool, cur: int)
    requires
        0 <= cur,
    ensures
        ({
            let items = func_items(s, p, cur);
            &&& (forall|k: int|
                0 <= k < items.len() ==> cur <= (#[trigger] items[k]).0 < items[k].1 <= s.len())
            &&& (forall|k: int, j: int|
                0 <= k < items.len() && (#[trigger] items[k]).0 <= j < items[k].1 ==> !p(
                    #[trigger] s[j],
                ))
            &&& (forall|k1: int, k2: int|
                0 <= k1 < k2 < items.len() ==> (#[trigger] items[k1]).1 < (#[trigger] items[k2]).0)
            &&& (forall|j: int|
                cur <= j < s.len() && !p(#[trigger] s[j]) ==> exists|k: int|
                    0 <= k < items.len() && (#[trigger] items[k]).0 <= j < items[k].1)
        }),
    decreases s.len() + 1 - cur,
{
    let items = func_items(s, p, cur);
    if cur >= s.len() {
    } else {
        lemma_first_word_from(s, p, cur);
        match first_word_from(s, p, cur) {
            None => {},
            Some(t) => {
                lemma_first_sep_from(s, p, t + 1);
                match first_sep_from(s, p, t + 1) {
                    Some(m) => {
                        lemma_func_items_partition(s, p, m + 1);
                        let rest = func_items(s, p, m + 1);
                        assert(items == seq![(t, m)] + rest);
                        assert forall|j: int| cur <= j < s.len() && !p(s[j]) implies exists|k: int|
                            0 <= k < items.len() && (#[trigger] items[k]).0 <= j < items[k].1 by {
                            if j < t {
                            } else if j < m {
                                assert(items[0].0 <= j < items[0].1);
                            } else if j == m {
                            } else {
                                let k0 = choose|k: int|
                                    0 <= k < rest.len() && (#[trigger] rest[k]).0 <= j < rest[k].1;
                                assert(items[k0 + 1].0 <= j < items[k0 + 1].1);
                            }
                        }
                    },
                    None => {
                        lemma_func_items_partition(s, p, s.len() as int);
                        let rest = func_items(s, p, s.len() as int);
                        assert(items == seq![(t, s.len() as int)] + rest);
                        assert forall|j: int| cur <= j < s.len() && !p(s[j]) implies exists|k: int|
                            0 <= k < items.len() && (#[trigger] items[k]).0 <= j < items[k].1 by {
                            if t <= j {
                                assert(items[0].0 <= j < items[0].1);
                            }
                        }
                    },
                }
            },
        }
    }
}

} // verus!
