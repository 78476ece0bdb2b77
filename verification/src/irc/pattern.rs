//! Line patterns: a row of anchors with free text between them.
//!
//! A pattern such as `:<nick>!<user>@<host> PRIVMSG <target> :<content>` is
//! a chain of fixed anchors (`:`, `!`, `@`, ` PRIVMSG `, ` :`) that must
//! stand in the text in that order, on one line, without overlapping. What
//! lies between two neighbouring anchors, and after the last one, are the
//! fields. Where the anchors can be placed in more than one way, the chain
//! that counts starts as early as possible and, from that start, has every
//! later anchor as far to the right as it can go: each field but the last
//! takes all the text it can.
//!
//! The first part of this file says what a chain is and finds the one that
//! counts. The second part goes the other way: for a text that was put
//! together from pieces and fields, it says when the chain that counts is
//! the one the text was made with, so that the fields read back, and that
//! what follows the first line of a text does not change the chain of that
//! line.

use vstd::prelude::*;
use crate::text::chars_of;
use crate::text::end_of_line;
use crate::text::lemma_line_end;
use crate::text::lemma_same_line;
use crate::text::line_end;
use crate::text::occurs_at;
use crate::text::one_line;

verus! {

/// One place of an anchor: `Some(c)` asks for the character `c`, `None`
/// takes any character at all.
pub type Atom = Option<char>;

/// Whether `c` may stand at a place that asks for `atom`.
pub open spec fn atom_accepts(atom: Atom, c: char) -> bool {
    match atom {
        Some(wanted) => c == wanted,
        None => true,
    }
}

/// `anchor` stands in `text` at index `p`.
pub open spec fn anchor_at(text: Seq<char>, anchor: Seq<Atom>, p: int) -> bool {
    &&& 0 <= p
    &&& p + anchor.len() <= text.len()
    &&& forall|k: int| 0 <= k < anchor.len() ==> atom_accepts(#[trigger] anchor[k], text[p + k])
}

/// The anchor that asks for exactly the characters of `s`.
pub open spec fn literal(s: Seq<char>) -> Seq<Atom> {
    s.map_values(|c: char| Some(c))
}

/// The index just past the last anchor of a chain.
pub open spec fn chain_end(anchors: Seq<Seq<Atom>>, at: Seq<int>) -> int {
    at.last() + anchors.last().len()
}

/// The anchors stand at the indices `at`, in order, without overlap, and
/// from the first anchor to the end of the last there is no line feed.
pub open spec fn is_chain(text: Seq<char>, anchors: Seq<Seq<Atom>>, at: Seq<int>) -> bool {
    &&& anchors.len() >= 1
    &&& at.len() == anchors.len()
    &&& forall|i: int| 0 <= i < at.len() ==> anchor_at(text, anchors[i], #[trigger] at[i])
    &&& forall|i: int| 0 <= i < at.len() - 1 ==> (#[trigger] at[i]) + anchors[i].len() <= at[i + 1]
    &&& one_line(text, at[0], chain_end(anchors, at))
}

/// Some chain of these anchors stands in the text.
pub open spec fn has_chain(text: Seq<char>, anchors: Seq<Seq<Atom>>) -> bool {
    exists|at: Seq<int>| is_chain(text, anchors, at)
}

/// No index of `other` lies to the right of the same index of `at`.
pub open spec fn not_right_of(other: Seq<int>, at: Seq<int>) -> bool {
    forall|i: int| 0 <= i < at.len() && i < other.len() ==> #[trigger] other[i] <= at[i]
}

/// `at` is the chain that counts: no chain starts before it, and no chain
/// with the same start has any anchor further right.
pub open spec fn best_chain(text: Seq<char>, anchors: Seq<Seq<Atom>>, at: Seq<int>) -> bool {
    &&& is_chain(text, anchors, at)
    &&& forall|other: Seq<int>| #[trigger]
        is_chain(text, anchors, other) ==> at[0] <= other[0] && (other[0] == at[0]
            ==> not_right_of(other, at))
}

/// The chain that counts, where the text has one.
pub open spec fn the_chain(text: Seq<char>, anchors: Seq<Seq<Atom>>) -> Seq<int> {
    choose|at: Seq<int>| best_chain(text, anchors, at)
}

/// The field between anchor `i` and the next one.
pub open spec fn field(text: Seq<char>, anchors: Seq<Seq<Atom>>, at: Seq<int>, i: int) -> Seq<
    char,
> {
    text.subrange(at[i] + anchors[i].len(), at[i + 1])
}

/// The last field: from the end of the last anchor to the end of its line.
pub open spec fn tail(text: Seq<char>, anchors: Seq<Seq<Atom>>, at: Seq<int>) -> Seq<char> {
    text.subrange(chain_end(anchors, at), line_end(text, chain_end(anchors, at)))
}

/// The anchors of a pattern as the contracts see them.
pub open spec fn anchor_views(anchors: Seq<Vec<Atom>>) -> Seq<Seq<Atom>> {
    anchors.map_values(|a: Vec<Atom>| a@)
}

/// Indices as integers.
pub open spec fn positions(at: Seq<usize>) -> Seq<int> {
    at.map_values(|p: usize| p as int)
}

/// A chain that lies between `lo` and `hi`.
pub open spec fn chain_within(
    text: Seq<char>,
    anchors: Seq<Seq<Atom>>,
    at: Seq<int>,
    lo: int,
    hi: int,
) -> bool {
    is_chain(text, anchors, at) && lo <= at[0] && chain_end(anchors, at) <= hi
}

/// From index `from` on, no index of `other` lies to the right of the same
/// index of `at`.
pub open spec fn bounded_from(other: Seq<int>, at: Seq<usize>, from: int) -> bool {
    forall|j: int| from <= j < at.len() ==> #[trigger] other[j] <= at[j]
}

/// The anchors from index `from` on stand at the indices `at`, at or after
/// `lo`, in order and without overlap, and the last ends at or before `hi`.
pub open spec fn settled(
    text: Seq<char>,
    anchors: Seq<Seq<Atom>>,
    at: Seq<usize>,
    from: int,
    lo: int,
    hi: int,
) -> bool {
    &&& at.len() == anchors.len()
    &&& forall|j: int|
        from <= j < at.len() ==> lo <= #[trigger] at[j] && anchor_at(text, anchors[j], at[j] as int)
    &&& forall|j: int|
        from <= j < at.len() - 1 ==> (#[trigger] at[j]) + anchors[j].len() <= at[j + 1]
    &&& from < at.len() ==> at[at.len() - 1] + anchors[at.len() - 1].len() <= hi
}

/// Along a chain the indices do not decrease, and every anchor ends at or
/// before the end of the chain.
pub proof fn lemma_chain_ordered(text: Seq<char>, anchors: Seq<Seq<Atom>>, at: Seq<int>, i: int)
    requires
        is_chain(text, anchors, at),
        0 <= i < at.len(),
    ensures
        at[0] <= at[i],
        at[i] + anchors[i].len() <= chain_end(anchors, at),
        0 <= at[i],
        chain_end(anchors, at) <= text.len(),
{
    lemma_chain_rises(text, anchors, at, i);
    lemma_chain_falls(text, anchors, at, i);
    assert(anchor_at(text, anchors[at.len() - 1], at[at.len() - 1]));
    assert(anchor_at(text, anchors[0], at[0]));
}

proof fn lemma_chain_rises(text: Seq<char>, anchors: Seq<Seq<Atom>>, at: Seq<int>, i: int)
    requires
        is_chain(text, anchors, at),
        0 <= i < at.len(),
    ensures
        at[0] <= at[i],
    decreases i,
{
    if i > 0 {
        lemma_chain_rises(text, anchors, at, i - 1);
        assert(at[i - 1] + anchors[i - 1].len() <= at[i - 1 + 1]);
    }
}

proof fn lemma_chain_falls(text: Seq<char>, anchors: Seq<Seq<Atom>>, at: Seq<int>, i: int)
    requires
        is_chain(text, anchors, at),
        0 <= i < at.len(),
    ensures
        at[i] + anchors[i].len() <= chain_end(anchors, at),
    decreases at.len() - i,
{
    if i < at.len() - 1 {
        lemma_chain_falls(text, anchors, at, i + 1);
        assert(at[i] + anchors[i].len() <= at[i + 1]);
    }
}

/// The chain that counts is unique.
pub proof fn lemma_best_chain_unique(
    text: Seq<char>,
    anchors: Seq<Seq<Atom>>,
    a: Seq<int>,
    b: Seq<int>,
)
    requires
        best_chain(text, anchors, a),
        best_chain(text, anchors, b),
    ensures
        a == b,
{
    assert(is_chain(text, anchors, a));
    assert(is_chain(text, anchors, b));
    assert(a[0] == b[0]);
    assert(not_right_of(a, b));
    assert(not_right_of(b, a));
    assert forall|i: int| 0 <= i < a.len() implies a[i] == b[i] by {
        assert(a[i] <= b[i]);
        assert(b[i] <= a[i]);
    }
    assert(a =~= b);
}

/// Where a chain counts, it is `the_chain`, and the text has a chain.
pub proof fn lemma_the_chain(text: Seq<char>, anchors: Seq<Seq<Atom>>, at: Seq<int>)
    requires
        best_chain(text, anchors, at),
    ensures
        has_chain(text, anchors),
        the_chain(text, anchors) == at,
{
    lemma_best_chain_unique(text, anchors, the_chain(text, anchors), at);
}

/// A chain that starts on the line from `lo` to `hi` lies on that line.
pub proof fn lemma_chain_on_line(
    text: Seq<char>,
    anchors: Seq<Seq<Atom>>,
    at: Seq<int>,
    lo: int,
    hi: int,
)
    requires
        is_chain(text, anchors, at),
        0 <= lo <= at[0] <= hi <= text.len(),
        hi < text.len() ==> text[hi] == '\n',
    ensures
        chain_within(text, anchors, at, lo, hi),
{
    lemma_chain_ordered(text, anchors, at, 0);
    if chain_end(anchors, at) > hi {
        assert(text[hi] != '\n');
    }
}

/// The anchor made of the characters of `s`.
pub fn literal_anchor(s: &str) -> (anchor: Vec<Atom>)
    ensures
        anchor@ == literal(s@),
{
    let chars = chars_of(s);
    let mut anchor: Vec<Atom> = Vec::new();
    let mut i: usize = 0;
    while i < chars.len()
        invariant
            i <= chars.len(),
            anchor@.len() == i,
            forall|j: int| 0 <= j < i ==> anchor@[j] == Some(chars@[j]),
        decreases chars.len() - i,
    {
        anchor.push(Some(chars[i]));
        i += 1;
    }
    assert(anchor@ =~= literal(s@));
    anchor
}

/// Whether `anchor` stands in `text` at index `p`.
pub fn anchor_here(text: &Vec<char>, anchor: &Vec<Atom>, p: usize) -> (hit: bool)
    requires
        p + anchor.len() <= text.len(),
    ensures
        hit == anchor_at(text@, anchor@, p as int),
{
    let mut k: usize = 0;
    while k < anchor.len()
        invariant
            k <= anchor.len(),
            p + anchor.len() <= text.len(),
            forall|j: int| 0 <= j < k ==> atom_accepts(#[trigger] anchor@[j], text@[p + j]),
        decreases anchor.len() - k,
    {
        match anchor[k] {
            Some(wanted) => {
                if text[p + k] != wanted {
                    assert(!atom_accepts(anchor@[k as int], text@[p + k]));
                    return false;
                }
            },
            None => {},
        }
        k += 1;
    }
    true
}

/// The rightmost place at or after `lo` where `anchor` stands and ends at
/// or before `limit`.
pub fn last_anchor(text: &Vec<char>, anchor: &Vec<Atom>, lo: usize, limit: usize) -> (found:
    Option<usize>)
    requires
        limit <= text.len(),
    ensures
        match found {
            Some(p) => lo <= p && p + anchor.len() <= limit && anchor_at(
                text@,
                anchor@,
                p as int,
            ) && forall|q: int|
                lo <= q && q + anchor.len() <= limit && anchor_at(text@, anchor@, q) ==> q <= p,
            None => forall|q: int|
                lo <= q && q + anchor.len() <= limit ==> !anchor_at(text@, anchor@, q),
        },
{
    if anchor.len() > limit || limit - anchor.len() < lo {
        return None;
    }
    let mut p: usize = limit - anchor.len();
    loop
        invariant
            lo <= p,
            p + anchor.len() <= limit <= text.len(),
            forall|q: int|
                p < q && q + anchor.len() <= limit ==> !anchor_at(text@, anchor@, q),
        decreases p,
    {
        if anchor_here(text, anchor, p) {
            return Some(p);
        }
        if p == lo {
            return None;
        }
        p -= 1;
    }
}

/// The leftmost place at or after `lo` where `anchor` stands and ends at or
/// before `limit`.
pub fn first_anchor(text: &Vec<char>, anchor: &Vec<Atom>, lo: usize, limit: usize) -> (found:
    Option<usize>)
    requires
        limit <= text.len(),
    ensures
        match found {
            Some(p) => lo <= p && p + anchor.len() <= limit && anchor_at(
                text@,
                anchor@,
                p as int,
            ) && forall|q: int|
                lo <= q && q + anchor.len() <= limit && anchor_at(text@, anchor@, q) ==> p <= q,
            None => forall|q: int|
                lo <= q && q + anchor.len() <= limit ==> !anchor_at(text@, anchor@, q),
        },
{
    if anchor.len() > limit || limit - anchor.len() < lo {
        return None;
    }
    let last: usize = limit - anchor.len();
    let mut p: usize = lo;
    loop
        invariant
            lo <= p <= last,
            last + anchor.len() == limit,
            limit <= text.len(),
            forall|q: int| lo <= q < p ==> !anchor_at(text@, anchor@, q),
        decreases last - p,
    {
        if anchor_here(text, anchor, p) {
            return Some(p);
        }
        if p == last {
            return None;
        }
        p += 1;
    }
}

/// The chain that counts among those between `lo` and `hi`, where the text
/// from `lo` to `hi` is one line: it starts first, and none of its anchors
/// could stand further right.
pub fn chain_between(text: &Vec<char>, anchors: &Vec<Vec<Atom>>, lo: usize, hi: usize) -> (found:
    Option<Vec<usize>>)
    requires
        anchors.len() >= 1,
        lo <= hi <= text.len(),
        one_line(text@, lo as int, hi as int),
    ensures
        match found {
            Some(at) => {
                &&& chain_within(
                    text@,
                    anchor_views(anchors@),
                    positions(at@),
                    lo as int,
                    hi as int,
                )
                &&& forall|other: Seq<int>| #[trigger]
                    chain_within(text@, anchor_views(anchors@), other, lo as int, hi as int)
                        ==> at@[0] <= other[0] && bounded_from(other, at@, 1)
            },
            None => forall|other: Seq<int>|
                !chain_within(text@, anchor_views(anchors@), other, lo as int, hi as int),
        },
{
    let k = anchors.len();
    let ghost views = anchor_views(anchors@);
    let mut at: Vec<usize> = Vec::new();
    let mut filled: usize = 0;
    while filled < k
        invariant
            filled <= k,
            at.len() == filled,
        decreases k - filled,
    {
        at.push(0);
        filled += 1;
    }
    let mut limit: usize = hi;
    let mut i: usize = k;
    while i > 1
        invariant
            1 <= i <= k,
            k == anchors.len(),
            views == anchor_views(anchors@),
            lo <= limit <= hi <= text.len(),
            i < k ==> limit == at@[i as int],
            i == k ==> limit == hi,
            settled(text@, views, at@, i as int, lo as int, hi as int),
            forall|other: Seq<int>| #[trigger]
                chain_within(text@, views, other, lo as int, hi as int) ==> bounded_from(
                    other,
                    at@,
                    i as int,
                ),
        decreases i,
    {
        i -= 1;
        let ghost before = at@;
        match last_anchor(text, &anchors[i], lo, limit) {
            None => {
                assert forall|other: Seq<int>|
                    !chain_within(text@, views, other, lo as int, hi as int) by {
                    if chain_within(text@, views, other, lo as int, hi as int) {
                        lemma_chain_ordered(text@, views, other, i as int);
                        assert(bounded_from(other, at@, i + 1));
                        assert(anchor_at(text@, views[i as int], other[i as int]));
                        if i + 1 < k {
                            assert(other[i as int] + views[i as int].len() <= other[i + 1]);
                            assert(other[i + 1] <= at@[i + 1]);
                        }
                    }
                }
                return None;
            },
            Some(p) => {
                at.set(i, p);
                proof {
                    assert forall|other: Seq<int>| #[trigger]
                        chain_within(
                        text@,
                        views,
                        other,
                        lo as int,
                        hi as int,
                    ) implies bounded_from(other, at@, i as int) by {
                        lemma_chain_ordered(text@, views, other, i as int);
                        assert(bounded_from(other, before, i + 1));
                        assert(anchor_at(text@, views[i as int], other[i as int]));
                        if i + 1 < k {
                            assert(other[i as int] + views[i as int].len() <= other[i + 1]);
                            assert(other[i + 1] <= before[i + 1]);
                        }
                        assert(other[i as int] <= p);
                        assert forall|j: int| i <= j < at@.len() implies #[trigger] other[j]
                            <= at@[j] by {
                            if j > i {
                                assert(other[j] <= before[j]);
                            }
                        }
                    }
                    assert forall|j: int| i <= j < at@.len() implies lo <= #[trigger] at@[j]
                        && anchor_at(text@, views[j], at@[j] as int) by {
                        if j > i {
                            assert(lo <= before[j] && anchor_at(text@, views[j], before[j] as int));
                        }
                    }
                    assert forall|j: int| i <= j < at@.len() - 1 implies (#[trigger] at@[j])
                        + views[j].len() <= at@[j + 1] by {
                        if j > i {
                            assert(before[j] + views[j].len() <= before[j + 1]);
                        }
                    }
                }
                limit = p;
            },
        }
    }
    let ghost before = at@;
    match first_anchor(text, &anchors[0], lo, limit) {
        None => {
            assert forall|other: Seq<int>|
                !chain_within(text@, views, other, lo as int, hi as int) by {
                if chain_within(text@, views, other, lo as int, hi as int) {
                    lemma_chain_ordered(text@, views, other, 0);
                    assert(bounded_from(other, at@, 1));
                    assert(anchor_at(text@, views[0], other[0]));
                    if 1 < k {
                        assert(other[0] + views[0].len() <= other[1]);
                        assert(other[1] <= at@[1]);
                    }
                }
            }
            None
        },
        Some(p) => {
            at.set(0, p);
            proof {
                let ats = positions(at@);
                assert forall|j: int| 0 <= j < ats.len() implies anchor_at(
                    text@,
                    views[j],
                    #[trigger] ats[j],
                ) by {
                    if j > 0 {
                        assert(lo <= before[j] && anchor_at(text@, views[j], before[j] as int));
                    }
                }
                assert forall|j: int| 0 <= j < ats.len() - 1 implies (#[trigger] ats[j])
                    + views[j].len() <= ats[j + 1] by {
                    if j > 0 {
                        assert(before[j] + views[j].len() <= before[j + 1]);
                    }
                }
                assert(chain_end(views, ats) <= hi);
                assert(is_chain(text@, views, ats));
                assert forall|other: Seq<int>| #[trigger]
                    chain_within(text@, views, other, lo as int, hi as int) implies at@[0]
                    <= other[0] && bounded_from(other, at@, 1) by {
                    lemma_chain_ordered(text@, views, other, 0);
                    assert(bounded_from(other, before, 1));
                    assert(anchor_at(text@, views[0], other[0]));
                    if 1 < k {
                        assert(other[0] + views[0].len() <= other[1]);
                        assert(other[1] <= before[1]);
                    }
                    assert forall|j: int| 1 <= j < at@.len() implies #[trigger] other[j]
                        <= at@[j] by {
                        assert(other[j] <= before[j]);
                    }
                }
            }
            Some(at)
        },
    }
}

/// The chain of `anchors` that counts in `text`, or `None` where the text
/// has no chain of them.
pub fn find_chain(text: &Vec<char>, anchors: &Vec<Vec<Atom>>) -> (found: Option<Vec<usize>>)
    ensures
        match found {
            Some(at) => best_chain(text@, anchor_views(anchors@), positions(at@)),
            None => !has_chain(text@, anchor_views(anchors@)),
        },
{
    let ghost views = anchor_views(anchors@);
    if anchors.len() == 0 {
        return None;
    }
    let mut lo: usize = 0;
    loop
        invariant
            anchors.len() >= 1,
            views == anchor_views(anchors@),
            lo <= text.len(),
            forall|other: Seq<int>| #[trigger] is_chain(text@, views, other) ==> lo <= other[0],
        decreases text.len() - lo,
    {
        let hi = end_of_line(text, lo);
        proof {
            lemma_line_end(text@, lo as int);
        }
        match chain_between(text, anchors, lo, hi) {
            Some(at) => {
                proof {
                    let ats = positions(at@);
                    assert forall|other: Seq<int>| #[trigger]
                        is_chain(text@, views, other) implies ats[0] <= other[0] && (other[0]
                        == ats[0] ==> not_right_of(other, ats)) by {
                        lemma_chain_ordered(text@, views, ats, 0);
                        if other[0] <= hi {
                            lemma_chain_on_line(text@, views, other, lo as int, hi as int);
                            assert(bounded_from(other, at@, 1));
                            assert forall|j: int|
                                0 <= j < ats.len() && j < other.len() && other[0]
                                    == ats[0] implies #[trigger] other[j] <= ats[j] by {
                                if j >= 1 {
                                    assert(other[j] <= at@[j]);
                                }
                            }
                        }
                    }
                }
                return Some(at);
            },
            None => {},
        }
        if hi >= text.len() {
            assert forall|other: Seq<int>| !is_chain(text@, views, other) by {
                if is_chain(text@, views, other) {
                    lemma_chain_ordered(text@, views, other, 0);
                    lemma_chain_on_line(text@, views, other, lo as int, hi as int);
                }
            }
            return None;
        }
        proof {
            assert forall|other: Seq<int>| #[trigger]
                is_chain(text@, views, other) implies hi + 1 <= other[0] by {
                if other[0] <= hi {
                    lemma_chain_on_line(text@, views, other, lo as int, hi as int);
                }
            }
        }
        lo = hi + 1;
    }
}

/// How far anchor `i` of a chain may reach: to the next anchor, or for the
/// last anchor to the end of the line.
pub open spec fn reach(text: Seq<char>, anchors: Seq<Seq<Atom>>, at: Seq<int>, i: int) -> int {
    if i + 1 < at.len() {
        at[i + 1]
    } else {
        line_end(text, chain_end(anchors, at))
    }
}

/// Nothing competes with the chain `at`: its first anchor stands nowhere
/// before it, and none of the others stands again to the right of its
/// place within its reach.
pub open spec fn unrivalled(text: Seq<char>, anchors: Seq<Seq<Atom>>, at: Seq<int>) -> bool {
    &&& forall|p: int| 0 <= p < at[0] ==> !#[trigger] anchor_at(text, anchors[0], p)
    &&& forall|i: int, p: int|
        1 <= i < at.len() && at[i] < p && p + anchors[i].len() <= reach(text, anchors, at, i)
            ==> !#[trigger] anchor_at(text, anchors[i], p)
}

proof fn lemma_unrivalled_bounds(
    text: Seq<char>,
    anchors: Seq<Seq<Atom>>,
    at: Seq<int>,
    other: Seq<int>,
    i: int,
)
    requires
        is_chain(text, anchors, at),
        is_chain(text, anchors, other),
        unrivalled(text, anchors, at),
        other[0] == at[0],
        0 <= i < at.len(),
    ensures
        other[i] <= at[i],
    decreases at.len() - i,
{
    if i >= 1 {
        assert(anchor_at(text, anchors[i], other[i]));
        if i + 1 < at.len() {
            lemma_unrivalled_bounds(text, anchors, at, other, i + 1);
            assert(other[i] + anchors[i].len() <= other[i + 1]);
        } else {
            lemma_chain_ordered(text, anchors, other, 0);
            lemma_chain_ordered(text, anchors, at, 0);
            lemma_line_end(text, other[0]);
            lemma_chain_on_line(text, anchors, other, other[0], line_end(text, other[0]));
            lemma_same_line(text, at[0], chain_end(anchors, at));
        }
    }
}

/// A chain that nothing competes with is the chain that counts.
pub proof fn lemma_unrivalled_is_best(text: Seq<char>, anchors: Seq<Seq<Atom>>, at: Seq<int>)
    requires
        is_chain(text, anchors, at),
        unrivalled(text, anchors, at),
    ensures
        best_chain(text, anchors, at),
{
    assert forall|other: Seq<int>| #[trigger] is_chain(text, anchors, other) implies at[0]
        <= other[0] && (other[0] == at[0] ==> not_right_of(other, at)) by {
        assert(anchor_at(text, anchors[0], other[0]));
        if other[0] == at[0] {
            assert forall|i: int| 0 <= i < at.len() && i < other.len() implies #[trigger] other[i]
                <= at[i] by {
                lemma_unrivalled_bounds(text, anchors, at, other, i);
            }
        }
    }
}

/// A text is an instance of the anchor made of its characters.
pub proof fn lemma_literal_fits(s: Seq<char>)
    ensures
        fits(s, literal(s)),
{
}

/// The anchor made of the characters of `s` stands where `s` stands.
pub proof fn lemma_literal_at(text: Seq<char>, s: Seq<char>, p: int)
    ensures
        anchor_at(text, literal(s), p) == occurs_at(text, s, p),
{
    if anchor_at(text, literal(s), p) {
        assert forall|k: int| 0 <= k < s.len() implies text.subrange(p, p + s.len())[k]
            == s[k] by {
            assert(atom_accepts(literal(s)[k], text[p + k]));
        }
        assert(text.subrange(p, p + s.len()) =~= s);
    }
    if occurs_at(text, s, p) {
        assert forall|k: int| 0 <= k < literal(s).len() implies atom_accepts(
            #[trigger] literal(s)[k],
            text[p + k],
        ) by {
            assert(text.subrange(p, p + s.len())[k] == s[k]);
        }
    }
}

/// A text in which the characters of one anchor stand nowhere has no chain.
pub proof fn lemma_no_chain_without(
    text: Seq<char>,
    anchors: Seq<Seq<Atom>>,
    i: int,
    s: Seq<char>,
)
    requires
        0 <= i < anchors.len(),
        anchors[i] == literal(s),
        forall|p: int| !occurs_at(text, s, p),
    ensures
        !has_chain(text, anchors),
{
    if has_chain(text, anchors) {
        let at = choose|at: Seq<int>| is_chain(text, anchors, at);
        assert(anchor_at(text, anchors[i], at[i]));
        lemma_literal_at(text, s, at[i]);
    }
}

/// The text made of pieces and fields in turn: piece 0, field 0, piece 1,
/// field 1, and so on to the last field.
pub open spec fn woven(pieces: Seq<Seq<char>>, fields: Seq<Seq<char>>) -> Seq<char>
    decreases pieces.len(),
{
    if pieces.len() == 0 {
        Seq::empty()
    } else {
        woven(pieces.drop_last(), fields.drop_last()) + pieces.last() + fields.last()
    }
}

/// Where piece `i` begins in the woven text.
pub open spec fn place(pieces: Seq<Seq<char>>, fields: Seq<Seq<char>>, i: int) -> int {
    woven(pieces.take(i), fields.take(i)).len() as int
}

/// Where each piece begins in the woven text.
pub open spec fn places(pieces: Seq<Seq<char>>, fields: Seq<Seq<char>>) -> Seq<int> {
    Seq::new(pieces.len(), |i: int| place(pieces, fields, i))
}

/// `piece` is an instance of `anchor`.
pub open spec fn fits(piece: Seq<char>, anchor: Seq<Atom>) -> bool {
    piece.len() == anchor.len() && anchor_at(piece, anchor, 0)
}

/// The pieces are instances of the anchors, nothing holds a line feed, and
/// no anchor but the first stands again in what follows its first
/// character up to the end of its field.
pub open spec fn well_woven(
    pieces: Seq<Seq<char>>,
    fields: Seq<Seq<char>>,
    anchors: Seq<Seq<Atom>>,
) -> bool {
    &&& pieces.len() >= 1
    &&& pieces.len() == fields.len()
    &&& pieces.len() == anchors.len()
    &&& forall|i: int| 0 <= i < pieces.len() ==> fits(#[trigger] pieces[i], anchors[i])
    &&& forall|i: int|
        0 <= i < pieces.len() ==> one_line(#[trigger] pieces[i], 0, pieces[i].len() as int)
    &&& forall|i: int|
        0 <= i < fields.len() ==> one_line(#[trigger] fields[i], 0, fields[i].len() as int)
    &&& forall|i: int| 1 <= i < pieces.len() ==> (#[trigger] pieces[i]).len() >= 1
    &&& forall|i: int, q: int|
        1 <= i < pieces.len() ==> !#[trigger] anchor_at(
            pieces[i].skip(1) + fields[i],
            anchors[i],
            q,
        )
}

/// Weaving one more piece and field adds them at the end.
pub proof fn lemma_woven_push(
    pieces: Seq<Seq<char>>,
    fields: Seq<Seq<char>>,
    piece: Seq<char>,
    field: Seq<char>,
)
    ensures
        woven(pieces.push(piece), fields.push(field)) == woven(pieces, fields) + piece + field,
{
    assert(pieces.push(piece).drop_last() =~= pieces);
    assert(fields.push(field).drop_last() =~= fields);
}

/// Piece `i` and field `i` stand in the woven text one after the other,
/// from the place of piece `i` to the place of the next.
pub proof fn lemma_woven_segment(pieces: Seq<Seq<char>>, fields: Seq<Seq<char>>, i: int)
    requires
        pieces.len() == fields.len(),
        0 <= i < pieces.len(),
    ensures
        ({
            let text = woven(pieces, fields);
            let a = place(pieces, fields, i);
            let b = place(pieces, fields, i + 1);
            &&& 0 <= a
            &&& b == a + pieces[i].len() + fields[i].len()
            &&& b <= text.len()
            &&& text.subrange(a, b) == pieces[i] + fields[i]
            &&& (i + 1 == pieces.len() ==> b == text.len())
            &&& (i == 0 ==> a == 0)
        }),
{
    let text = woven(pieces, fields);
    lemma_woven_prefix(pieces, fields, i);
    lemma_woven_prefix(pieces, fields, i + 1);
    assert(pieces.take(i + 1).drop_last() =~= pieces.take(i));
    assert(fields.take(i + 1).drop_last() =~= fields.take(i));
    let before = woven(pieces.take(i), fields.take(i));
    let upto = woven(pieces.take(i + 1), fields.take(i + 1));
    assert(upto == before + pieces[i] + fields[i]);
    assert(upto.subrange(before.len() as int, upto.len() as int) =~= pieces[i] + fields[i]);
    assert(text.subrange(before.len() as int, upto.len() as int) =~= text.take(
        upto.len() as int,
    ).subrange(before.len() as int, upto.len() as int));
    if i + 1 == pieces.len() {
        assert(pieces.take(i + 1) =~= pieces);
        assert(fields.take(i + 1) =~= fields);
    }
    if i == 0 {
        assert(pieces.take(0).len() == 0);
    }
}

proof fn lemma_woven_prefix(pieces: Seq<Seq<char>>, fields: Seq<Seq<char>>, i: int)
    requires
        pieces.len() == fields.len(),
        0 <= i <= pieces.len(),
    ensures
        place(pieces, fields, i) <= woven(pieces, fields).len(),
        woven(pieces, fields).take(place(pieces, fields, i)) == woven(
            pieces.take(i),
            fields.take(i),
        ),
    decreases pieces.len() - i,
{
    let text = woven(pieces, fields);
    if i == pieces.len() {
        assert(pieces.take(i) =~= pieces);
        assert(fields.take(i) =~= fields);
        assert(text.take(text.len() as int) =~= text);
    } else {
        lemma_woven_prefix(pieces, fields, i + 1);
        assert(pieces.take(i + 1).drop_last() =~= pieces.take(i));
        assert(fields.take(i + 1).drop_last() =~= fields.take(i));
        let before = woven(pieces.take(i), fields.take(i));
        let upto = woven(pieces.take(i + 1), fields.take(i + 1));
        assert(upto == before + pieces[i] + fields[i]);
        assert(upto.take(before.len() as int) =~= before);
        assert(text.take(upto.len() as int).take(before.len() as int) =~= text.take(
            before.len() as int,
        ));
    }
}

/// A woven text whose parts hold no line feed holds none.
proof fn lemma_woven_one_line(pieces: Seq<Seq<char>>, fields: Seq<Seq<char>>)
    requires
        pieces.len() == fields.len(),
        forall|i: int|
            0 <= i < pieces.len() ==> one_line(#[trigger] pieces[i], 0, pieces[i].len() as int),
        forall|i: int|
            0 <= i < fields.len() ==> one_line(#[trigger] fields[i], 0, fields[i].len() as int),
    ensures
        one_line(woven(pieces, fields), 0, woven(pieces, fields).len() as int),
    decreases pieces.len(),
{
    if pieces.len() > 0 {
        let head = woven(pieces.drop_last(), fields.drop_last());
        assert forall|i: int| 0 <= i < pieces.drop_last().len() implies one_line(
            #[trigger] pieces.drop_last()[i],
            0,
            pieces.drop_last()[i].len() as int,
        ) by {
            assert(pieces.drop_last()[i] == pieces[i]);
        }
        assert forall|i: int| 0 <= i < fields.drop_last().len() implies one_line(
            #[trigger] fields.drop_last()[i],
            0,
            fields.drop_last()[i].len() as int,
        ) by {
            assert(fields.drop_last()[i] == fields[i]);
        }
        lemma_woven_one_line(pieces.drop_last(), fields.drop_last());
        let text = woven(pieces, fields);
        let last = pieces.len() - 1;
        assert(one_line(pieces[last], 0, pieces[last].len() as int));
        assert(one_line(fields[last], 0, fields[last].len() as int));
        assert forall|k: int| 0 <= k < text.len() implies #[trigger] text[k] != '\n' by {
            if k < head.len() {
                assert(text[k] == head[k]);
            } else if k < head.len() + pieces[last].len() {
                assert(text[k] == pieces[last][k - head.len()]);
            } else {
                assert(text[k] == fields[last][k - head.len() - pieces[last].len()]);
            }
        }
    }
}

/// In a well-woven text every place past the start is on the one line
/// that the text is.
proof fn lemma_woven_line_end(
    pieces: Seq<Seq<char>>,
    fields: Seq<Seq<char>>,
    anchors: Seq<Seq<Atom>>,
    x: int,
)
    requires
        well_woven(pieces, fields, anchors),
        0 <= x <= woven(pieces, fields).len(),
    ensures
        line_end(woven(pieces, fields), x) == woven(pieces, fields).len(),
        one_line(woven(pieces, fields), 0, woven(pieces, fields).len() as int),
{
    lemma_woven_one_line(pieces, fields);
    lemma_line_end(woven(pieces, fields), x);
}

/// A well-woven text holds no line feed.
pub proof fn lemma_woven_feedless(
    pieces: Seq<Seq<char>>,
    fields: Seq<Seq<char>>,
    anchors: Seq<Seq<Atom>>,
)
    requires
        well_woven(pieces, fields, anchors),
    ensures
        one_line(woven(pieces, fields), 0, woven(pieces, fields).len() as int),
{
    lemma_woven_one_line(pieces, fields);
}

/// In a well-woven text piece `i` stands at its place.
proof fn lemma_woven_anchor(
    pieces: Seq<Seq<char>>,
    fields: Seq<Seq<char>>,
    anchors: Seq<Seq<Atom>>,
    i: int,
)
    requires
        well_woven(pieces, fields, anchors),
        0 <= i < pieces.len(),
    ensures
        anchor_at(woven(pieces, fields), anchors[i], place(pieces, fields, i)),
        place(pieces, fields, i) + anchors[i].len() <= place(pieces, fields, i + 1),
        place(pieces, fields, i + 1) <= woven(pieces, fields).len(),
{
    let text = woven(pieces, fields);
    lemma_woven_segment(pieces, fields, i);
    let a = place(pieces, fields, i);
    let b = place(pieces, fields, i + 1);
    assert(fits(pieces[i], anchors[i]));
    assert forall|j: int| 0 <= j < anchors[i].len() implies atom_accepts(
        #[trigger] anchors[i][j],
        text[a + j],
    ) by {
        assert(text[a + j] == text.subrange(a, b)[j]);
        assert((pieces[i] + fields[i])[j] == pieces[i][0 + j]);
    }
}

/// In a well-woven text the pieces are a chain.
proof fn lemma_woven_is_chain(
    pieces: Seq<Seq<char>>,
    fields: Seq<Seq<char>>,
    anchors: Seq<Seq<Atom>>,
)
    requires
        well_woven(pieces, fields, anchors),
    ensures
        is_chain(woven(pieces, fields), anchors, places(pieces, fields)),
        chain_end(anchors, places(pieces, fields)) == place(pieces, fields, pieces.len() - 1)
            + pieces.last().len(),
{
    let text = woven(pieces, fields);
    let at = places(pieces, fields);
    let k = pieces.len() as int;
    assert forall|i: int| 0 <= i < at.len() implies anchor_at(
        text,
        anchors[i],
        #[trigger] at[i],
    ) by {
        lemma_woven_anchor(pieces, fields, anchors, i);
    }
    assert forall|i: int| 0 <= i < at.len() - 1 implies (#[trigger] at[i]) + anchors[i].len()
        <= at[i + 1] by {
        lemma_woven_anchor(pieces, fields, anchors, i);
    }
    lemma_woven_anchor(pieces, fields, anchors, k - 1);
    assert(fits(pieces[k - 1], anchors[k - 1]));
    lemma_woven_line_end(pieces, fields, anchors, 0);
}

/// In a well-woven text nothing competes with the pieces.
proof fn lemma_woven_unrivalled(
    pieces: Seq<Seq<char>>,
    fields: Seq<Seq<char>>,
    anchors: Seq<Seq<Atom>>,
)
    requires
        well_woven(pieces, fields, anchors),
    ensures
        unrivalled(woven(pieces, fields), anchors, places(pieces, fields)),
{
    let text = woven(pieces, fields);
    let at = places(pieces, fields);
    lemma_woven_segment(pieces, fields, 0);
    lemma_woven_is_chain(pieces, fields, anchors);
    assert forall|i: int, p: int|
        1 <= i < at.len() && at[i] < p && p + anchors[i].len() <= reach(
            text,
            anchors,
            at,
            i,
        ) implies !#[trigger] anchor_at(text, anchors[i], p) by {
        lemma_woven_reach(pieces, fields, anchors, i);
        lemma_woven_rival(pieces, fields, anchors, i, p);
    }
}

/// In a well-woven text the reach of piece `i` is the place of the next
/// piece, or the end of the text for the last.
proof fn lemma_woven_reach(
    pieces: Seq<Seq<char>>,
    fields: Seq<Seq<char>>,
    anchors: Seq<Seq<Atom>>,
    i: int,
)
    requires
        well_woven(pieces, fields, anchors),
        0 <= i < pieces.len(),
    ensures
        reach(woven(pieces, fields), anchors, places(pieces, fields), i) == place(
            pieces,
            fields,
            i + 1,
        ),
{
    let text = woven(pieces, fields);
    let at = places(pieces, fields);
    if i + 1 == pieces.len() {
        lemma_woven_segment(pieces, fields, i);
        lemma_woven_is_chain(pieces, fields, anchors);
        lemma_chain_ordered(text, anchors, at, i);
        lemma_woven_line_end(pieces, fields, anchors, chain_end(anchors, at));
    }
}

/// A rival of piece `i` before the next piece would stand in what follows
/// the first character of piece `i`.
proof fn lemma_woven_rival(
    pieces: Seq<Seq<char>>,
    fields: Seq<Seq<char>>,
    anchors: Seq<Seq<Atom>>,
    i: int,
    p: int,
)
    requires
        well_woven(pieces, fields, anchors),
        1 <= i < pieces.len(),
        place(pieces, fields, i) < p,
        p + anchors[i].len() <= place(pieces, fields, i + 1),
    ensures
        !anchor_at(woven(pieces, fields), anchors[i], p),
{
    let text = woven(pieces, fields);
    lemma_woven_segment(pieces, fields, i);
    let a = place(pieces, fields, i);
    let b = place(pieces, fields, i + 1);
    let part = pieces[i] + fields[i];
    let after = pieces[i].skip(1) + fields[i];
    let q = p - a - 1;
    assert(text.subrange(a, b) == part);
    assert(part.skip(1) =~= after);
    if anchor_at(text, anchors[i], p) {
        assert forall|j: int| 0 <= j < anchors[i].len() implies atom_accepts(
            #[trigger] anchors[i][j],
            after[q + j],
        ) by {
            assert(atom_accepts(anchors[i][j], text[p + j]));
            assert(text.subrange(a, b)[q + 1 + j] == text[p + j]);
            assert(part.skip(1)[q + j] == part[q + 1 + j]);
        }
        assert(anchor_at(after, anchors[i], q));
    }
}

/// In a well-woven text the field after piece `i` is field `i`.
proof fn lemma_woven_field(
    pieces: Seq<Seq<char>>,
    fields: Seq<Seq<char>>,
    anchors: Seq<Seq<Atom>>,
    i: int,
)
    requires
        well_woven(pieces, fields, anchors),
        0 <= i < pieces.len(),
    ensures
        woven(pieces, fields).subrange(
            place(pieces, fields, i) + anchors[i].len(),
            place(pieces, fields, i + 1),
        ) == fields[i],
{
    let text = woven(pieces, fields);
    lemma_woven_segment(pieces, fields, i);
    let a = place(pieces, fields, i);
    let b = place(pieces, fields, i + 1);
    assert(fits(pieces[i], anchors[i]));
    assert(text.subrange(a + pieces[i].len(), b) =~= text.subrange(a, b).skip(
        pieces[i].len() as int,
    ));
    assert((pieces[i] + fields[i]).skip(pieces[i].len() as int) =~= fields[i]);
}

/// In a well-woven text the pieces are the chain that counts, and the
/// fields of that chain are the fields the text was woven from.
pub proof fn lemma_woven_chain(
    pieces: Seq<Seq<char>>,
    fields: Seq<Seq<char>>,
    anchors: Seq<Seq<Atom>>,
)
    requires
        well_woven(pieces, fields, anchors),
    ensures
        ({
            let text = woven(pieces, fields);
            let at = places(pieces, fields);
            &&& best_chain(text, anchors, at)
            &&& forall|i: int|
                0 <= i < fields.len() - 1 ==> #[trigger] field(text, anchors, at, i) == fields[i]
            &&& tail(text, anchors, at) == fields.last()
        }),
{
    let text = woven(pieces, fields);
    let at = places(pieces, fields);
    let k = pieces.len() as int;
    lemma_woven_is_chain(pieces, fields, anchors);
    lemma_woven_unrivalled(pieces, fields, anchors);
    lemma_unrivalled_is_best(text, anchors, at);
    assert forall|i: int| 0 <= i < fields.len() - 1 implies #[trigger] field(
        text,
        anchors,
        at,
        i,
    ) == fields[i] by {
        lemma_woven_field(pieces, fields, anchors, i);
    }
    lemma_woven_field(pieces, fields, anchors, k - 1);
    lemma_woven_segment(pieces, fields, k - 1);
    lemma_chain_ordered(text, anchors, at, k - 1);
    lemma_woven_line_end(pieces, fields, anchors, chain_end(anchors, at));
    assert(fits(pieces[k - 1], anchors[k - 1]));
}

/// Within the first `n` characters, an anchor stands in a text where it
/// stands in the text's first `n` characters.
proof fn lemma_anchor_in_head(head: Seq<char>, more: Seq<char>, anchor: Seq<Atom>, p: int)
    requires
        p + anchor.len() <= head.len(),
    ensures
        anchor_at(head + more, anchor, p) == anchor_at(head, anchor, p),
{
    let text = head + more;
    if anchor_at(text, anchor, p) {
        assert forall|k: int| 0 <= k < anchor.len() implies atom_accepts(
            #[trigger] anchor[k],
            head[p + k],
        ) by {
            assert(atom_accepts(anchor[k], text[p + k]));
            assert(text[p + k] == head[p + k]);
        }
    }
    if anchor_at(head, anchor, p) {
        assert forall|k: int| 0 <= k < anchor.len() implies atom_accepts(
            #[trigger] anchor[k],
            text[p + k],
        ) by {
            assert(atom_accepts(anchor[k], head[p + k]));
            assert(text[p + k] == head[p + k]);
        }
    }
}

/// A chain of a text that begins on its first line is a chain of that
/// first line.
proof fn lemma_chain_of_head(
    head: Seq<char>,
    more: Seq<char>,
    anchors: Seq<Seq<Atom>>,
    other: Seq<int>,
)
    requires
        one_line(head, 0, head.len() as int),
        more.len() > 0 ==> more[0] == '\n',
        is_chain(head + more, anchors, other),
        other[0] <= head.len(),
    ensures
        is_chain(head, anchors, other),
{
    let text = head + more;
    let n = head.len() as int;
    lemma_chain_ordered(text, anchors, other, 0);
    if n < text.len() {
        assert(text[n] == more[0]);
    }
    lemma_chain_on_line(text, anchors, other, 0, n);
    assert forall|i: int| 0 <= i < other.len() implies anchor_at(
        head,
        anchors[i],
        #[trigger] other[i],
    ) by {
        lemma_chain_ordered(text, anchors, other, i);
        lemma_anchor_in_head(head, more, anchors[i], other[i]);
    }
}

/// The chain of a first line is a chain of the whole text.
proof fn lemma_chain_of_text(
    head: Seq<char>,
    more: Seq<char>,
    anchors: Seq<Seq<Atom>>,
    at: Seq<int>,
)
    requires
        is_chain(head, anchors, at),
    ensures
        is_chain(head + more, anchors, at),
{
    let text = head + more;
    lemma_chain_ordered(head, anchors, at, 0);
    assert forall|i: int| 0 <= i < at.len() implies anchor_at(
        text,
        anchors[i],
        #[trigger] at[i],
    ) by {
        lemma_chain_ordered(head, anchors, at, i);
        lemma_anchor_in_head(head, more, anchors[i], at[i]);
    }
    assert forall|k: int| at[0] <= k < chain_end(anchors, at) implies #[trigger] text[k]
        != '\n' by {
        assert(text[k] == head[k]);
    }
}

/// The chain that counts on the first line of a text counts in the whole
/// text, with the same fields: what stands after the first line feed does
/// not matter.
pub proof fn lemma_first_line_chain(
    head: Seq<char>,
    more: Seq<char>,
    anchors: Seq<Seq<Atom>>,
    at: Seq<int>,
)
    requires
        best_chain(head, anchors, at),
        one_line(head, 0, head.len() as int),
        more.len() > 0 ==> more[0] == '\n',
    ensures
        best_chain(head + more, anchors, at),
        forall|i: int|
            0 <= i < at.len() - 1 ==> #[trigger] field(head + more, anchors, at, i) == field(
                head,
                anchors,
                at,
                i,
            ),
        tail(head + more, anchors, at) == tail(head, anchors, at),
{
    let text = head + more;
    let n = head.len() as int;
    lemma_chain_of_text(head, more, anchors, at);
    lemma_chain_ordered(head, anchors, at, 0);
    assert forall|other: Seq<int>| #[trigger] is_chain(text, anchors, other) implies at[0]
        <= other[0] && (other[0] == at[0] ==> not_right_of(other, at)) by {
        if other[0] <= n {
            lemma_chain_of_head(head, more, anchors, other);
        }
    }
    assert forall|i: int| 0 <= i < at.len() - 1 implies #[trigger] field(text, anchors, at, i)
        == field(head, anchors, at, i) by {
        lemma_chain_ordered(head, anchors, at, i + 1);
        assert(at[i] + anchors[i].len() <= at[i + 1]);
        assert(field(text, anchors, at, i) =~= field(head, anchors, at, i));
    }
    let end = chain_end(anchors, at);
    lemma_chain_ordered(head, anchors, at, at.len() - 1);
    lemma_line_end(head, end);
    assert(line_end(head, end) == n);
    assert(one_line(text, end, n)) by {
        assert forall|k: int| end <= k < n implies #[trigger] text[k] != '\n' by {
            assert(text[k] == head[k]);
        }
    }
    lemma_same_line(text, end, n);
    if n < text.len() {
        assert(text[n] == more[0]);
    }
    assert(line_end(text, n) == n);
    assert(text.subrange(end, n) =~= head.subrange(end, n));
}

} // verus!
