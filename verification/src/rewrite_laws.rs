//! What holds of rewritten files: every edit is made, and everything else is kept.

use vstd::prelude::*;
use crate::convert::{
    applied_edits, attribute_text, edit_in_order, edits_in_order_all_apply, new_texts, old_texts,
    replace_each,
};
use crate::text::{
    first_occurrence, is_rewrite, lemma_first_occurrence, occurrences, occurs_at, occurs_in,
    replace_all, replacing_keeps_the_rest, rewrites, stand_at, weave,
};

verus! {

/// Where the edits that found their old text found it, counted in the text before any edit.
pub open spec fn edit_places(text: Seq<char>, edits: Seq<(Seq<char>, Seq<char>)>) -> Seq<int>
    decreases edits.len(),
{
    if edits.len() == 0 {
        Seq::empty()
    } else {
        let (before, from) = edit_in_order(text, edits.drop_last());
        let earlier = edit_places(text, edits.drop_last());
        match first_occurrence(before, edits.last().0, from) {
            Some(i) => earlier.push(i - (before.len() - text.len())),
            None => earlier,
        }
    }
}

/// Whether a part of the text, from a position on, shares no character with what edits replace.
pub open spec fn is_untouched(
    text: Seq<char>,
    edits: Seq<(Seq<char>, Seq<char>)>,
    part: Seq<char>,
    position: int,
) -> bool {
    forall|i: int|
        0 <= i < edit_places(text, edits).len() ==> {
            let place = #[trigger] edit_places(text, edits)[i];
            place + applied_edits(text, edits)[i].0.len() <= position || position + part.len()
                <= place
        }
}

/// Whether the old texts of later edits stand in a text, one behind the other, and none of them
/// shares a character with what earlier edits replace.
pub open spec fn stand_apart(
    text: Seq<char>,
    edits: Seq<(Seq<char>, Seq<char>)>,
    later: Seq<(Seq<char>, Seq<char>)>,
) -> bool {
    exists|positions: Seq<int>| stand_apart_at(text, edits, later, positions)
}

/// Whether the old texts of later edits stand in a text at positions, and none of them shares a
/// character with what earlier edits replace.
pub open spec fn stand_apart_at(
    text: Seq<char>,
    edits: Seq<(Seq<char>, Seq<char>)>,
    later: Seq<(Seq<char>, Seq<char>)>,
    positions: Seq<int>,
) -> bool {
    &&& stand_at(text, old_texts(later), positions)
    &&& forall|j: int|
        0 <= j < later.len() ==> is_untouched(
            text,
            edits,
            (#[trigger] later[j]).0,
            positions[j],
        )
}

/// Where what stood at a position stands after edits.
spec fn moved(text: Seq<char>, edits: Seq<(Seq<char>, Seq<char>)>, position: int) -> int
    decreases edits.len(),
{
    if edits.len() == 0 {
        position
    } else {
        let (before, from) = edit_in_order(text, edits.drop_last());
        let (old_text, new_text) = edits.last();
        let earlier = moved(text, edits.drop_last(), position);
        match first_occurrence(before, old_text, from) {
            Some(i) if i - (before.len() - text.len()) + old_text.len() <= position => earlier
                + new_text.len() - old_text.len(),
            _ => earlier,
        }
    }
}

/// There is a place for each edit that found its old text.
proof fn lemma_places(text: Seq<char>, edits: Seq<(Seq<char>, Seq<char>)>)
    ensures
        edit_places(text, edits).len() == applied_edits(text, edits).len(),
    decreases edits.len(),
{
    if edits.len() > 0 {
        lemma_places(text, edits.drop_last());
    }
}

/// What the earlier edits leave untouched, all edits but the last leave untouched.
proof fn lemma_untouched_before(
    text: Seq<char>,
    edits: Seq<(Seq<char>, Seq<char>)>,
    part: Seq<char>,
    position: int,
)
    requires
        edits.len() > 0,
        is_untouched(text, edits, part, position),
    ensures
        is_untouched(text, edits.drop_last(), part, position),
        ({
            let (before, from) = edit_in_order(text, edits.drop_last());
            first_occurrence(before, edits.last().0, from) matches Some(i) ==> {
                let place = i - (before.len() - text.len());
                place + edits.last().0.len() <= position || position + part.len() <= place
            }
        }),
{
    let front = edits.drop_last();
    let (before, from) = edit_in_order(text, front);
    let places = edit_places(text, edits);
    let earlier = edit_places(text, front);
    lemma_places(text, front);
    assert forall|i: int| 0 <= i < earlier.len() implies {
        let place = #[trigger] earlier[i];
        place + applied_edits(text, front)[i].0.len() <= position || position + part.len()
            <= place
    } by {
        assert(places[i] == earlier[i]);
        assert(applied_edits(text, edits)[i] == applied_edits(text, front)[i]);
    }
    if let Some(i) = first_occurrence(before, edits.last().0, from) {
        let last = earlier.len() as int;
        assert(places[last] == i - (before.len() - text.len()));
        assert(applied_edits(text, edits)[last] == edits.last());
    }
}

/// What edits leave untouched stands in the edited text: before the position up to which the
/// edits reached, or as far behind it as it stood.
proof fn lemma_moved(
    text: Seq<char>,
    edits: Seq<(Seq<char>, Seq<char>)>,
    part: Seq<char>,
    position: int,
)
    requires
        occurs_at(text, part, position),
        is_untouched(text, edits, part, position),
    ensures
        ({
            let (now, from) = edit_in_order(text, edits);
            let behind = text.len() - (now.len() - from);
            let to = moved(text, edits, position);
            &&& 0 <= from <= now.len()
            &&& 0 <= behind
            &&& occurs_at(now, part, to)
            &&& position >= behind ==> to == position + now.len() - text.len()
            &&& position < behind ==> to + part.len() <= from
        }),
    decreases edits.len(),
{
    if edits.len() > 0 {
        let front = edits.drop_last();
        lemma_untouched_before(text, edits, part, position);
        lemma_moved(text, front, part, position);
        let (before, from) = edit_in_order(text, front);
        let (old_text, new_text) = edits.last();
        let (now, _) = edit_in_order(text, edits);
        let earlier = moved(text, front, position);
        let to = moved(text, edits, position);
        lemma_first_occurrence(before, old_text, from);
        if let Some(i) = first_occurrence(before, old_text, from) {
            let place = i - (before.len() - text.len());
            assert(now == before.take(i) + new_text + before.skip(i + old_text.len()));
            assert(before.subrange(earlier, earlier + part.len()) == part);
            if place + old_text.len() <= position {
                assert(now.subrange(to, to + part.len()) =~= before.subrange(
                    earlier,
                    earlier + part.len(),
                ));
            } else {
                assert(earlier + part.len() <= i);
                assert(now.subrange(to, to + part.len()) =~= before.subrange(
                    earlier,
                    earlier + part.len(),
                ));
            }
        }
    }
}

/// What edits leave untouched stays in order.
proof fn lemma_moved_in_order(
    text: Seq<char>,
    edits: Seq<(Seq<char>, Seq<char>)>,
    first: Seq<char>,
    p: int,
    second: Seq<char>,
    q: int,
)
    requires
        occurs_at(text, first, p),
        occurs_at(text, second, q),
        is_untouched(text, edits, first, p),
        is_untouched(text, edits, second, q),
        p + first.len() <= q,
    ensures
        moved(text, edits, p) + first.len() <= moved(text, edits, q),
    decreases edits.len(),
{
    if edits.len() > 0 {
        let front = edits.drop_last();
        let (before, from) = edit_in_order(text, front);
        lemma_untouched_before(text, edits, first, p);
        lemma_untouched_before(text, edits, second, q);
        lemma_moved(text, front, first, p);
        lemma_moved(text, front, second, q);
        lemma_moved_in_order(text, front, first, p, second, q);
        lemma_first_occurrence(before, edits.last().0, from);
    }
}

/// Edits made after others all find their place, where their old texts stand in the text one
/// behind the other and share no character with what the earlier edits replace. So each
/// `@import` of a style sheet is rewritten too, unless it overlaps a `url()`.
pub proof fn later_edits_all_apply(
    text: Seq<char>,
    edits: Seq<(Seq<char>, Seq<char>)>,
    later: Seq<(Seq<char>, Seq<char>)>,
)
    requires
        stand_apart(text, edits, later),
    ensures
        applied_edits(edit_in_order(text, edits).0, later) == later,
{
    let positions = choose|positions: Seq<int>| stand_apart_at(text, edits, later, positions);
    let now = edit_in_order(text, edits).0;
    let parts = old_texts(later);
    let places = Seq::new(later.len(), |j: int| moved(text, edits, positions[j]));
    assert forall|j: int| 0 <= j < parts.len() implies occurs_at(
        now,
        #[trigger] parts[j],
        places[j],
    ) by {
        assert(parts[j] == later[j].0);
        lemma_moved(text, edits, parts[j], positions[j]);
    }
    assert forall|i: int, j: int| 0 <= i < j < parts.len() implies (#[trigger] places[i])
        + parts[i].len() <= #[trigger] places[j] by {
        assert(parts[i] == later[i].0 && parts[j] == later[j].0);
        assert(positions[i] + parts[i].len() <= positions[j]);
        lemma_moved_in_order(text, edits, parts[i], positions[i], parts[j], positions[j]);
    }
    edits_in_order_all_apply(now, later, places);
}

/// Whether a text is never found where another was put in: wherever `put` stands, no character
/// of it belongs to an occurrence of `sought`.
pub open spec fn keeps_apart(put: Seq<char>, sought: Seq<char>) -> bool {
    forall|a: Seq<char>, b: Seq<char>, k: int| #[trigger]
        occurs_at(a + put + b, sought, k) ==> k + sought.len() <= a.len() || a.len() + put.len()
            <= k
}

/// Whether no edit finds its old text where an edit put in a new one; edits that replace a text
/// by itself may.
pub open spec fn edits_keep_apart(edits: Seq<(Seq<char>, Seq<char>)>) -> bool {
    forall|i: int, j: int|
        0 <= i < edits.len() && 0 <= j < edits.len() && edits[j].0 != edits[j].1 ==> keeps_apart(
            (#[trigger] edits[i]).1,
            (#[trigger] edits[j]).0,
        )
}

/// What stands in a part of a text stands in the text.
proof fn lemma_occurs_in_part(a: Seq<char>, m: Seq<char>, b: Seq<char>, p: Seq<char>, k: int)
    ensures
        occurs_at(a, p, k) ==> occurs_at(a + m + b, p, k),
        occurs_at(b, p, k) ==> occurs_at(a + m + b, p, k + a.len() + m.len()),
        0 <= k && k + p.len() <= a.len() && occurs_at(a + m + b, p, k) ==> occurs_at(a, p, k),
        a.len() + m.len() <= k && occurs_at(a + m + b, p, k) ==> occurs_at(
            b,
            p,
            k - a.len() - m.len(),
        ),
{
    let s = a + m + b;
    if 0 <= k && k + p.len() <= a.len() {
        assert(s.subrange(k, k + p.len()) =~= a.subrange(k, k + p.len()));
    }
    let j = k + a.len() + m.len();
    if 0 <= k && k + p.len() <= b.len() {
        assert(s.subrange(j, j + p.len()) =~= b.subrange(k, k + p.len()));
    }
    let i = k - a.len() - m.len();
    if 0 <= i && k + p.len() <= s.len() {
        assert(s.subrange(k, k + p.len()) =~= b.subrange(i, i + p.len()));
    }
}

/// Replacing a text round one in which it is not found replaces it on both sides.
proof fn lemma_replace_split(
    a: Seq<char>,
    m: Seq<char>,
    b: Seq<char>,
    p: Seq<char>,
    r: Seq<char>,
)
    requires
        p.len() > 0,
        keeps_apart(m, p),
    ensures
        replace_all(a + m + b, p, r) == replace_all(a, p, r) + m + replace_all(b, p, r),
    decreases a.len(),
{
    let s = a + m + b;
    lemma_first_occurrence(s, p, 0);
    lemma_first_occurrence(a, p, 0);
    lemma_first_occurrence(b, p, 0);
    let in_a = first_occurrence(a, p, 0);
    let in_b = first_occurrence(b, p, 0);
    if let Some(k) = in_a {
        lemma_occurs_in_part(a, m, b, p, k);
    }
    if let Some(k) = in_b {
        lemma_occurs_in_part(a, m, b, p, k);
    }
    match first_occurrence(s, p, 0) {
        None => {},
        Some(i) => {
            assert(occurs_at(a + m + b, p, i));
            lemma_occurs_in_part(a, m, b, p, i);
            if i + p.len() <= a.len() {
                assert(in_a == Some(i));
                let rest = a.skip(i + p.len());
                lemma_replace_split(rest, m, b, p, r);
                assert(s.skip(i + p.len()) =~= rest + m + b);
                assert(s.take(i) =~= a.take(i));
                assert(replace_all(s, p, r) =~= replace_all(a, p, r) + m + replace_all(b, p, r));
            } else {
                let j = i - a.len() - m.len();
                assert(in_a is None);
                if let Some(k) = in_b {
                    assert(occurs_at(a + m + b, p, k + a.len() + m.len()));
                }
                assert(in_b == Some(j));
                assert(s.skip(i + p.len()) =~= b.skip(j + p.len()));
                assert(s.take(i) =~= a + m + b.take(j));
                assert(replace_all(s, p, r) =~= replace_all(a, p, r) + m + replace_all(b, p, r));
            }
        },
    }
}

/// Replacing a text by itself changes nothing.
proof fn lemma_replace_by_itself(s: Seq<char>, p: Seq<char>)
    ensures
        replace_all(s, p, p) == s,
    decreases s.len(),
{
    lemma_first_occurrence(s, p, 0);
    if let Some(i) = first_occurrence(s, p, 0) {
        if p.len() > 0 {
            lemma_replace_by_itself(s.skip(i + p.len()), p);
            assert(s.subrange(i, i + p.len()) == p);
            assert(s =~= s.take(i) + p + s.skip(i + p.len()));
        }
    }
}

/// Replacing leaves no text that stood nowhere before and is not found where the new text is.
proof fn lemma_replace_brings_none(s: Seq<char>, p: Seq<char>, r: Seq<char>, q: Seq<char>)
    requires
        keeps_apart(r, q),
        p == q || !occurs_in(s, q),
        p.len() > 0,
    ensures
        !occurs_in(replace_all(s, p, r), q),
    decreases s.len(),
{
    lemma_first_occurrence(s, p, 0);
    let result = replace_all(s, p, r);
    match first_occurrence(s, p, 0) {
        None => {},
        Some(i) => {
            let front = s.take(i);
            let rest = s.skip(i + p.len());
            assert(s.subrange(i, i + p.len()) == p);
            assert(s =~= front + p + rest);
            if p != q && occurs_in(rest, q) {
                let k = choose|k: int| occurs_at(rest, q, k);
                lemma_occurs_in_part(front, p, rest, q, k);
                assert(occurs_at(s, q, k + front.len() + p.len()));
            }
            lemma_replace_brings_none(rest, p, r, q);
            let tail = replace_all(rest, p, r);
            if occurs_in(result, q) {
                let k = choose|k: int| occurs_at(result, q, k);
                assert(occurs_at(front + r + tail, q, k));
                lemma_occurs_in_part(front, r, tail, q, k);
                if k + q.len() <= front.len() {
                    lemma_occurs_in_part(front, p, rest, q, k);
                    assert(occurs_at(s, q, k));
                } else {
                    assert(occurs_at(tail, q, k - front.len() - r.len()));
                }
            }
        },
    }
}

/// Two weaves make one.
proof fn lemma_weave_both(
    kept: Seq<Seq<char>>,
    put: Seq<Seq<char>>,
    more_kept: Seq<Seq<char>>,
    more_put: Seq<Seq<char>>,
)
    requires
        kept.len() == put.len(),
        more_kept.len() == more_put.len(),
    ensures
        weave(kept + more_kept, put + more_put) == weave(kept, put) + weave(more_kept, more_put),
    decreases more_kept.len(),
{
    if more_kept.len() == 0 {
        assert(kept + more_kept =~= kept);
        assert(put + more_put =~= put);
        assert(weave(kept, put) + weave(more_kept, more_put) =~= weave(kept, put));
    } else {
        lemma_weave_both(kept, put, more_kept.drop_last(), more_put.drop_last());
        assert((kept + more_kept).drop_last() =~= kept + more_kept.drop_last());
        assert((put + more_put).drop_last() =~= put + more_put.drop_last());
        assert(weave(kept + more_kept, put + more_put) =~= weave(kept, put) + weave(
            more_kept,
            more_put,
        ));
    }
}

/// Replacing in a text that was rewritten before, round the texts that were put in.
proof fn lemma_replace_in_rewrite(
    kept: Seq<Seq<char>>,
    done: Seq<(Seq<char>, Seq<char>)>,
    tail: Seq<char>,
    p: Seq<char>,
    r: Seq<char>,
) -> (next: (Seq<Seq<char>>, Seq<(Seq<char>, Seq<char>)>, Seq<char>))
    requires
        kept.len() == done.len(),
        p.len() > 0,
        forall|i: int| 0 <= i < done.len() ==> keeps_apart((#[trigger] done[i]).1, p),
    ensures
        next.0.len() == next.1.len(),
        weave(kept, old_texts(done)) + tail == weave(next.0, old_texts(next.1)) + next.2,
        replace_all(weave(kept, new_texts(done)) + tail, p, r) == weave(
            next.0,
            new_texts(next.1),
        ) + next.2,
        forall|i: int|
            0 <= i < next.1.len() ==> done.contains(#[trigger] next.1[i]) || next.1[i] == (p, r),
    decreases kept.len(),
{
    let count = occurrences(tail, p);
    let here = Seq::new(count, |i: int| (p, r));
    let (here_kept, end) = {
        let olds = Seq::new(count, |i: int| p);
        let news = Seq::new(count, |i: int| r);
        replacing_keeps_the_rest(tail, p, r);
        assert(old_texts(here) =~= olds);
        assert(new_texts(here) =~= news);
        choose|kept: Seq<Seq<char>>, end: Seq<char>|
            is_rewrite(tail, replace_all(tail, p, r), olds, news, kept, end)
    };
    assert(tail == weave(here_kept, old_texts(here)) + end);
    assert(replace_all(tail, p, r) == weave(here_kept, new_texts(here)) + end);
    if kept.len() == 0 {
        assert(weave(kept, old_texts(done)) + tail =~= tail);
        assert(weave(kept, new_texts(done)) + tail =~= tail);
        (here_kept, here, end)
    } else {
        let front = done.drop_last();
        let last = done.last();
        assert forall|i: int| 0 <= i < front.len() implies keeps_apart((#[trigger] front[i]).1, p) by {
            assert(front[i] == done[i]);
        }
        let (first_kept, first, first_end) = lemma_replace_in_rewrite(
            kept.drop_last(),
            front,
            kept.last(),
            p,
            r,
        );
        assert(old_texts(done).drop_last() =~= old_texts(front));
        assert(new_texts(done).drop_last() =~= new_texts(front));
        let a_old = weave(kept.drop_last(), old_texts(front)) + kept.last();
        let a = weave(kept.drop_last(), new_texts(front)) + kept.last();
        assert(weave(kept, old_texts(done)) + tail =~= a_old + last.0 + tail);
        assert(weave(kept, new_texts(done)) + tail =~= a + last.1 + tail);
        assert(keeps_apart(done[done.len() - 1].1, p));
        lemma_replace_split(a, last.1, tail, p, r);
        let left_kept = first_kept.push(first_end);
        let left = first.push(last);
        assert(left_kept.drop_last() =~= first_kept);
        assert(old_texts(left) =~= old_texts(first).push(last.0));
        assert(new_texts(left) =~= new_texts(first).push(last.1));
        assert(old_texts(left).drop_last() =~= old_texts(first));
        assert(new_texts(left).drop_last() =~= new_texts(first));
        let all_kept = left_kept + here_kept;
        let all = left + here;
        assert(old_texts(all) =~= old_texts(left) + old_texts(here));
        assert(new_texts(all) =~= new_texts(left) + new_texts(here));
        lemma_weave_both(left_kept, old_texts(left), here_kept, old_texts(here));
        lemma_weave_both(left_kept, new_texts(left), here_kept, new_texts(here));
        assert(a_old + last.0 + tail =~= weave(all_kept, old_texts(all)) + end);
        assert(replace_all(a, p, r) + last.1 + replace_all(tail, p, r) =~= weave(
            all_kept,
            new_texts(all),
        ) + end);
        assert forall|i: int| 0 <= i < all.len() implies done.contains(#[trigger] all[i]) || all[i]
            == (p, r) by {
            if i < first.len() {
                assert(all[i] == first[i]);
                if front.contains(first[i]) {
                    let j = choose|j: int| 0 <= j < front.len() && front[j] == first[i];
                    assert(done[j] == first[i]);
                }
            } else if i == first.len() {
                assert(done[done.len() - 1] == all[i]);
            } else {
                assert(all[i] == here[i - left.len()]);
            }
        }
        (all_kept, all, end)
    }
}

/// Whether `after` is `before` with old texts of edits, one behind the other, replaced by their
/// new texts, and everything else kept.
pub open spec fn rewrites_by(
    before: Seq<char>,
    after: Seq<char>,
    edits: Seq<(Seq<char>, Seq<char>)>,
) -> bool {
    exists|done: Seq<(Seq<char>, Seq<char>)>| #[trigger]
        are_among(done, edits) && rewrites(before, after, old_texts(done), new_texts(done))
}

/// Whether each of some edits is one of others.
pub open spec fn are_among(
    done: Seq<(Seq<char>, Seq<char>)>,
    edits: Seq<(Seq<char>, Seq<char>)>,
) -> bool {
    forall|i: int| 0 <= i < done.len() ==> edits.contains(#[trigger] done[i])
}

proof fn lemma_replace_each_rewrites(
    text: Seq<char>,
    edits: Seq<(Seq<char>, Seq<char>)>,
) -> (r: (Seq<Seq<char>>, Seq<(Seq<char>, Seq<char>)>, Seq<char>))
    requires
        edits_keep_apart(edits),
        forall|i: int| 0 <= i < edits.len() ==> (#[trigger] edits[i]).0.len() > 0,
    ensures
        is_rewrite(
            text,
            replace_each(text, edits),
            old_texts(r.1),
            new_texts(r.1),
            r.0,
            r.2,
        ),
        are_among(r.1, edits),
        forall|j: int|
            0 <= j < edits.len() && edits[j].0 != edits[j].1 ==> !occurs_in(
                replace_each(text, edits),
                (#[trigger] edits[j]).0,
            ),
    decreases edits.len(),
{
    if edits.len() == 0 {
        let none = Seq::<(Seq<char>, Seq<char>)>::empty();
        let kept = Seq::<Seq<char>>::empty();
        assert(weave(kept, old_texts(none)) + text =~= text);
        assert(weave(kept, new_texts(none)) + text =~= text);
        (kept, none, text)
    } else {
        let front = edits.drop_last();
        let (p, r) = edits.last();
        assert forall|i: int| 0 <= i < front.len() implies (#[trigger] front[i]).0.len() > 0 by {
            assert(front[i] == edits[i]);
        }
        assert forall|i: int, j: int|
            0 <= i < front.len() && 0 <= j < front.len() && front[j].0
                != front[j].1 implies keeps_apart(
            (#[trigger] front[i]).1,
            (#[trigger] front[j]).0,
        ) by {
            assert(front[i] == edits[i] && front[j] == edits[j]);
        }
        let (kept, done, tail) = lemma_replace_each_rewrites(text, front);
        let before = replace_each(text, front);
        let after = replace_each(text, edits);
        let last = edits.len() - 1;
        assert(edits[last] == (p, r));
        assert forall|i: int| 0 <= i < done.len() implies edits.contains(#[trigger] done[i]) by {
            let j = choose|j: int| 0 <= j < front.len() && front[j] == done[i];
            assert(edits[j] == done[i]);
        }
        if p == r {
            lemma_replace_by_itself(before, p);
            assert forall|j: int| 0 <= j < edits.len() && edits[j].0
                != edits[j].1 implies !occurs_in(after, (#[trigger] edits[j]).0) by {
                assert(front[j] == edits[j]);
            }
            (kept, done, tail)
        } else {
            assert forall|i: int| 0 <= i < done.len() implies keeps_apart(
                (#[trigger] done[i]).1,
                p,
            ) by {
                let j = choose|j: int| 0 <= j < edits.len() && edits[j] == done[i];
                assert(keeps_apart(edits[j].1, edits[last].0));
            }
            assert forall|j: int| 0 <= j < edits.len() && edits[j].0
                != edits[j].1 implies !occurs_in(after, (#[trigger] edits[j]).0) by {
                assert(keeps_apart(edits[last].1, edits[j].0));
                if j < last {
                    assert(front[j] == edits[j]);
                }
                lemma_replace_brings_none(before, p, r, edits[j].0);
            }
            let (next_kept, next_done, next_tail) = lemma_replace_in_rewrite(
                kept,
                done,
                tail,
                p,
                r,
            );
            assert forall|i: int| 0 <= i < next_done.len() implies edits.contains(
                #[trigger] next_done[i],
            ) by {
                if !done.contains(next_done[i]) {
                    assert(edits[last] == next_done[i]);
                } else {
                    let j = choose|j: int| 0 <= j < done.len() && done[j] == next_done[i];
                    assert(edits.contains(done[j]));
                }
            }
            (next_kept, next_done, next_tail)
        }
    }
}

/// A page with its links replaced is the page with old texts of its edits rewritten into their
/// new texts, and with everything else kept; and no old text is left in it, but for those that
/// are replaced by themselves. This holds where no edit finds its old text where an edit put in
/// a new one.
pub proof fn replacing_links_keeps_the_rest(
    text: Seq<char>,
    edits: Seq<(Seq<char>, Seq<char>)>,
)
    requires
        edits_keep_apart(edits),
        forall|i: int| 0 <= i < edits.len() ==> (#[trigger] edits[i]).0.len() > 0,
    ensures
        rewrites_by(text, replace_each(text, edits), edits),
        forall|j: int|
            0 <= j < edits.len() && edits[j].0 != edits[j].1 ==> !occurs_in(
                replace_each(text, edits),
                (#[trigger] edits[j]).0,
            ),
{
    let (kept, done, tail) = lemma_replace_each_rewrites(text, edits);
    assert(are_among(done, edits));
    assert(is_rewrite(
        text,
        replace_each(text, edits),
        old_texts(done),
        new_texts(done),
        kept,
        tail,
    ));
}

/// A link of a page: the name of its attribute, the value, and what is put in its place.
pub struct LinkEdit {
    pub name: Seq<char>,
    pub old_value: Seq<char>,
    pub new_value: Seq<char>,
}

/// The edits for links of a page.
pub open spec fn link_edits(links: Seq<LinkEdit>) -> Seq<(Seq<char>, Seq<char>)> {
    links.map_values(
        |l: LinkEdit|
            (attribute_text(l.name, l.old_value), attribute_text(l.name, l.new_value)),
    )
}

/// Whether a value of an attribute holds no quote and does not end as an attribute begins.
pub open spec fn is_plain_value(value: Seq<char>) -> bool {
    &&& !value.contains('"')
    &&& !"href"@.push('=').is_suffix_of(value)
    &&& !"src"@.push('=').is_suffix_of(value)
}

/// Whether a link is one of the attributes that are rewritten, with plain values.
pub open spec fn is_plain_link(link: LinkEdit) -> bool {
    &&& link.name == "href"@ || link.name == "src"@
    &&& is_plain_value(link.old_value)
    &&& is_plain_value(link.new_value)
}

/// The edits for the links of a page keep apart, where the values are plain and none that is put
/// in is the value of another link that is changed.
pub proof fn plain_links_keep_apart(links: Seq<LinkEdit>)
    requires
        forall|i: int| 0 <= i < links.len() ==> is_plain_link(#[trigger] links[i]),
        forall|i: int, j: int|
            0 <= i < links.len() && 0 <= j < links.len() && links[j].old_value
                != links[j].new_value && links[i].name == links[j].name ==> (
            #[trigger] links[i]).new_value != (#[trigger] links[j]).old_value,
    ensures
        edits_keep_apart(link_edits(links)),
{
    let edits = link_edits(links);
    lemma_link_names();
    assert forall|i: int, j: int|
        0 <= i < edits.len() && 0 <= j < edits.len() && edits[j].0 != edits[j].1 implies keeps_apart(
        (#[trigger] edits[i]).1,
        (#[trigger] edits[j]).0,
    ) by {
        let put = links[i];
        let sought = links[j];
        assert(is_plain_link(put) && is_plain_link(sought));
        attributes_keep_apart(put.name, put.new_value, sought.name, sought.old_value);
    }
}

/// Where the parts of an attribute stand, and that no others of its characters are quotes.
proof fn lemma_attribute_parts(s: Seq<char>, name: Seq<char>, value: Seq<char>, k: int)
    requires
        !name.contains('"') && !value.contains('"'),
        occurs_at(s, attribute_text(name, value), k),
    ensures
        attribute_text(name, value).len() == name.len() + value.len() + 3,
        occurs_at(s, name, k),
        occurs_at(s, name.push('='), k),
        occurs_at(s, value, k + name.len() + 2),
        forall|i: int|
            k <= i < k + name.len() + value.len() + 3 ==> ((#[trigger] s[i] == '"') <==> (i == k
                + name.len() + 1 || i == k + name.len() + value.len() + 2)),
{
    reveal_strlit("=\"");
    reveal_strlit("\"");
    let t = attribute_text(name, value);
    let n = name.len() as int;
    assert(s.subrange(k, k + t.len()) == t);
    assert forall|j: int| 0 <= j < t.len() implies s[k + j] == #[trigger] t[j] by {
        assert(s.subrange(k, k + t.len())[j] == s[k + j]);
    }
    assert forall|j: int| 0 <= j < n implies s[k + j] == #[trigger] name[j] by {
        assert(t[j] == name[j]);
    }
    assert forall|j: int| 0 <= j < value.len() implies s[k + n + 2 + j] == #[trigger] value[j] by {
        assert(t[n + 2 + j] == value[j]);
    }
    assert(s[k + n] == t[n]);
    assert(s[k + n + 1] == t[n + 1]);
    assert(s[k + t.len() - 1] == t[t.len() - 1]);
    assert(s.subrange(k, k + n) =~= name);
    assert(s.subrange(k, k + n + 1) =~= name.push('='));
    assert(s.subrange(k + n + 2, k + n + 2 + value.len()) =~= value);
    assert forall|i: int| k <= i < k + t.len() implies ((#[trigger] s[i] == '"') <==> (i == k + n
        + 1 || i == k + t.len() - 1)) by {
        if i < k + n {
            assert(name[i - k] != '"');
        } else if k + n + 2 <= i < k + t.len() - 1 {
            assert(value[i - k - n - 2] != '"');
        }
    }
}

/// Of two texts that end at the same place, the shorter one ends the other.
proof fn lemma_common_end(s: Seq<char>, short: Seq<char>, k: int, long: Seq<char>, m: int)
    requires
        occurs_at(s, short, k),
        occurs_at(s, long, m),
        m <= k,
        k + short.len() == m + long.len(),
    ensures
        short.is_suffix_of(long),
        k == m ==> short == long,
{
    let n = long.len() - short.len();
    assert(short =~= long.subrange(n, long.len() as int)) by {
        assert forall|j: int| 0 <= j < short.len() implies short[j] == long[n + j] by {
            assert(s.subrange(k, k + short.len())[j] == s[k + j]);
            assert(s.subrange(m, m + long.len())[n + j] == s[m + n + j]);
        }
    }
    if k == m {
        assert(short =~= long);
    }
}

/// The attribute of a rewritten link is not found where another was put in: where names and
/// values hold no quote, neither name ends the other, no value ends with the other's name and
/// an equals sign, and the two are not the same.
pub proof fn attributes_keep_apart(
    put_name: Seq<char>,
    put_value: Seq<char>,
    name: Seq<char>,
    value: Seq<char>,
)
    requires
        !put_name.contains('"') && !put_value.contains('"'),
        !name.contains('"') && !value.contains('"'),
        put_name == name || !put_name.is_suffix_of(name) && !name.is_suffix_of(put_name),
        !name.push('=').is_suffix_of(put_value),
        !put_name.push('=').is_suffix_of(value),
        put_name == name ==> put_value != value,
    ensures
        keeps_apart(attribute_text(put_name, put_value), attribute_text(name, value)),
{
    let put = attribute_text(put_name, put_value);
    let sought = attribute_text(name, value);
    assert forall|a: Seq<char>, b: Seq<char>, k: int| #[trigger]
        occurs_at(a + put + b, sought, k) implies k + sought.len() <= a.len() || a.len()
        + put.len() <= k by {
        let s = a + put + b;
        let from = a.len() as int;
        assert(s.subrange(from, from + put.len()) =~= put);
        lemma_no_overlap(s, put_name, put_value, from, name, value, k);
    }
}

/// Whether a text shares no character with another occurrence of itself.
pub open spec fn stands_clear(text: Seq<char>) -> bool {
    forall|a: Seq<char>, b: Seq<char>, k: int| #[trigger]
        occurs_at(a + text + b, text, k) ==> k == a.len() || k + text.len() <= a.len() || a.len()
            + text.len() <= k
}

/// An attribute shares no character with another occurrence of itself, where its name and value
/// hold no quote and the value does not end as the attribute begins.
pub proof fn attributes_stand_clear(name: Seq<char>, value: Seq<char>)
    requires
        !name.contains('"') && !value.contains('"'),
        !name.push('=').is_suffix_of(value),
    ensures
        stands_clear(attribute_text(name, value)),
{
    let text = attribute_text(name, value);
    assert forall|a: Seq<char>, b: Seq<char>, k: int| #[trigger]
        occurs_at(a + text + b, text, k) implies k == a.len() || k + text.len() <= a.len()
        || a.len() + text.len() <= k by {
        let s = a + text + b;
        let from = a.len() as int;
        assert(s.subrange(from, from + text.len()) =~= text);
        lemma_no_overlap(s, name, value, from, name, value, k);
    }
}

/// Replacing a text that stands clear replaces it where it stands, and on both sides.
proof fn lemma_replace_here(a: Seq<char>, p: Seq<char>, b: Seq<char>, r: Seq<char>)
    requires
        p.len() > 0,
        stands_clear(p),
    ensures
        replace_all(a + p + b, p, r) == replace_all(a, p, r) + r + replace_all(b, p, r),
    decreases a.len(),
{
    let s = a + p + b;
    lemma_first_occurrence(s, p, 0);
    lemma_first_occurrence(a, p, 0);
    assert(s.subrange(a.len() as int, a.len() as int + p.len()) =~= p);
    assert(occurs_at(s, p, a.len() as int));
    let i = first_occurrence(s, p, 0)->0;
    assert(occurs_at(a + p + b, p, i));
    let in_a = first_occurrence(a, p, 0);
    if let Some(k) = in_a {
        lemma_occurs_in_part(a, p, b, p, k);
    }
    lemma_occurs_in_part(a, p, b, p, i);
    if i < a.len() {
        assert(in_a == Some(i));
        let rest = a.skip(i + p.len());
        lemma_replace_here(rest, p, b, r);
        assert(s.skip(i + p.len()) =~= rest + p + b);
        assert(s.take(i) =~= a.take(i));
        assert(replace_all(s, p, r) =~= replace_all(a, p, r) + r + replace_all(b, p, r));
    } else {
        assert(in_a is None);
        assert(s.take(i) =~= a);
        assert(s.skip(i + p.len()) =~= b);
    }
}

/// Whether no edit finds its old text where another old text stands, and each old text has one
/// new text.
pub open spec fn old_texts_keep_apart(edits: Seq<(Seq<char>, Seq<char>)>) -> bool {
    &&& forall|i: int, j: int|
        0 <= i < edits.len() && 0 <= j < edits.len() && edits[i].0 != edits[j].0 && edits[j].0
            != edits[j].1 ==> keeps_apart((#[trigger] edits[i]).0, (#[trigger] edits[j]).0)
    &&& forall|i: int, j: int|
        0 <= i < edits.len() && 0 <= j < edits.len() && edits[i].0 == edits[j].0 ==> (
        #[trigger] edits[i]).1 == (#[trigger] edits[j]).1
}

/// What stands in place of an old text after edits.
spec fn in_place(
    edits: Seq<(Seq<char>, Seq<char>)>,
    old_text: Seq<char>,
    new_text: Seq<char>,
) -> Seq<char> {
    if exists|j: int| 0 <= j < edits.len() && (#[trigger] edits[j]).0 == old_text {
        new_text
    } else {
        old_text
    }
}

proof fn lemma_replaced_in_place(
    a: Seq<char>,
    b: Seq<char>,
    all: Seq<(Seq<char>, Seq<char>)>,
    k: int,
    i: int,
)
    requires
        0 <= k <= all.len(),
        0 <= i < all.len(),
        edits_keep_apart(all),
        old_texts_keep_apart(all),
        forall|j: int| 0 <= j < all.len() ==> (#[trigger] all[j]).0.len() > 0,
        stands_clear(all[i].0),
    ensures
        ({
            let edits = all.take(k);
            let (o, n) = all[i];
            replace_each(a + o + b, edits) == replace_each(a, edits) + in_place(edits, o, n)
                + replace_each(b, edits)
        }),
    decreases k,
{
    let edits = all.take(k);
    let (o, n) = all[i];
    if k > 0 {
        let front = all.take(k - 1);
        lemma_replaced_in_place(a, b, all, k - 1, i);
        assert(edits.drop_last() =~= front);
        let (p, r) = all[k - 1];
        assert(edits.last() == (p, r));
        let x = replace_each(a, front);
        let m = in_place(front, o, n);
        let y = replace_each(b, front);
        let before = exists|j: int| 0 <= j < front.len() && (#[trigger] front[j]).0 == o;
        let now = exists|j: int| 0 <= j < edits.len() && (#[trigger] edits[j]).0 == o;
        if before {
            let j = choose|j: int| 0 <= j < front.len() && (#[trigger] front[j]).0 == o;
            assert(edits[j].0 == o);
        }
        if p == o {
            assert(edits[k - 1].0 == o);
            assert(all[k - 1].1 == all[i].1);
        }
        if now && !before {
            let j = choose|j: int| 0 <= j < edits.len() && (#[trigger] edits[j]).0 == o;
            if j < k - 1 {
                assert(front[j].0 == o);
            }
            assert(p == o);
        }
        if p == r {
            lemma_replace_by_itself(x + m + y, p);
            lemma_replace_by_itself(x, p);
            lemma_replace_by_itself(y, p);
        } else if p == o && !before {
            lemma_replace_here(x, o, y, n);
        } else {
            if before {
                assert(keeps_apart(all[i].1, all[k - 1].0));
            } else {
                assert(keeps_apart(all[i].0, all[k - 1].0));
            }
            lemma_replace_split(x, m, y, p, r);
        }
    } else {
        assert(edits =~= Seq::empty());
    }
}

/// A link of a page is replaced where it stands: with one edit's old text between two others,
/// its new text stands between what the two become.
pub proof fn links_are_replaced_in_place(
    a: Seq<char>,
    b: Seq<char>,
    edits: Seq<(Seq<char>, Seq<char>)>,
    i: int,
)
    requires
        0 <= i < edits.len(),
        edits_keep_apart(edits),
        old_texts_keep_apart(edits),
        forall|j: int| 0 <= j < edits.len() ==> (#[trigger] edits[j]).0.len() > 0,
        stands_clear(edits[i].0),
    ensures
        replace_each(a + edits[i].0 + b, edits) == replace_each(a, edits) + edits[i].1
            + replace_each(b, edits),
{
    lemma_replaced_in_place(a, b, edits, edits.len() as int, i);
    assert(edits.take(edits.len() as int) =~= edits);
}

/// The attribute of a plain link is replaced where it stands: the name, an equals sign and the
/// value in quotes become the name, an equals sign and the new value in quotes.
pub proof fn plain_links_are_replaced_in_place(
    a: Seq<char>,
    b: Seq<char>,
    links: Seq<LinkEdit>,
    i: int,
)
    requires
        0 <= i < links.len(),
        forall|j: int| 0 <= j < links.len() ==> is_plain_link(#[trigger] links[j]),
        forall|j: int, k: int|
            0 <= j < links.len() && 0 <= k < links.len() && links[k].old_value
                != links[k].new_value && links[j].name == links[k].name ==> (
            #[trigger] links[j]).new_value != (#[trigger] links[k]).old_value,
        forall|j: int, k: int|
            0 <= j < links.len() && 0 <= k < links.len() && links[j].name == links[k].name
                && links[j].old_value == links[k].old_value ==> (#[trigger] links[j]).new_value == (
            #[trigger] links[k]).new_value,
    ensures
        ({
            let edits = link_edits(links);
            let link = links[i];
            replace_each(
                a + link.name + seq!['=', '"'] + link.old_value + seq!['"'] + b,
                edits,
            ) == replace_each(a, edits) + link.name + seq!['=', '"'] + link.new_value + seq!['"']
                + replace_each(b, edits)
        }),
{
    let edits = link_edits(links);
    let link = links[i];
    reveal_strlit("=\"");
    reveal_strlit("\"");
    assert("=\""@ =~= seq!['=', '"']);
    assert("\""@ =~= seq!['"']);
    plain_links_keep_apart(links);
    lemma_link_names();
    assert(is_plain_link(link));
    attributes_stand_clear(link.name, link.old_value);
    assert forall|j: int| 0 <= j < edits.len() implies (#[trigger] edits[j]).0.len() > 0 by {
        assert(edits[j].0 == attribute_text(links[j].name, links[j].old_value));
    }
    assert forall|j: int, k: int|
        0 <= j < edits.len() && 0 <= k < edits.len() && edits[j].0 != edits[k].0 && edits[k].0
            != edits[k].1 implies keeps_apart(
        (#[trigger] edits[j]).0,
        (#[trigger] edits[k]).0,
    ) by {
        let put = links[j];
        let sought = links[k];
        assert(is_plain_link(put) && is_plain_link(sought));
        attributes_keep_apart(put.name, put.old_value, sought.name, sought.old_value);
    }
    assert forall|j: int, k: int|
        0 <= j < edits.len() && 0 <= k < edits.len() && edits[j].0 == edits[k].0 implies (
    #[trigger] edits[j]).1 == (#[trigger] edits[k]).1 by {
        let x = links[j];
        let y = links[k];
        assert(is_plain_link(x) && is_plain_link(y));
        lemma_same_attribute(x.name, x.old_value, y.name, y.old_value);
    }
    links_are_replaced_in_place(a, b, edits, i);
    let old_text = attribute_text(link.name, link.old_value);
    let new_text = attribute_text(link.name, link.new_value);
    assert(edits[i] == (old_text, new_text));
    assert(a + old_text + b =~= a + link.name + seq!['=', '"'] + link.old_value + seq!['"'] + b);
    let x = replace_each(a, edits);
    let y = replace_each(b, edits);
    assert(x + new_text + y =~= x + link.name + seq!['=', '"'] + link.new_value + seq!['"'] + y);
}

/// Of the two names, neither ends the other, and neither holds a quote.
proof fn lemma_link_names()
    ensures
        !"href"@.is_suffix_of("src"@),
        !"src"@.is_suffix_of("href"@),
        !"href"@.contains('"') && !"src"@.contains('"'),
{
    reveal_strlit("href");
    reveal_strlit("src");
    assert("href"@.last() == 'f' && "src"@.last() == 'c');
    assert("href"@.subrange(1, 4).last() == 'f');
}

/// Attributes that are written alike are the same.
proof fn lemma_same_attribute(
    name: Seq<char>,
    value: Seq<char>,
    other_name: Seq<char>,
    other_value: Seq<char>,
)
    requires
        !name.contains('"') && !value.contains('"'),
        !other_name.contains('"') && !other_value.contains('"'),
        attribute_text(name, value) == attribute_text(other_name, other_value),
    ensures
        name == other_name,
        value == other_value,
{
    let s = attribute_text(name, value);
    assert(s.subrange(0, s.len() as int) =~= s);
    lemma_attribute_parts(s, name, value, 0);
    lemma_attribute_parts(s, other_name, other_value, 0);
    assert(s[name.len() + 1int] == '"');
    assert(s[other_name.len() + 1int] == '"');
    assert(name.len() == other_name.len());
}

/// Two such attributes that stand in a text do not overlap, unless they are the same one.
proof fn lemma_no_overlap(
    s: Seq<char>,
    put_name: Seq<char>,
    put_value: Seq<char>,
    from: int,
    name: Seq<char>,
    value: Seq<char>,
    k: int,
)
    requires
        !put_name.contains('"') && !put_value.contains('"'),
        !name.contains('"') && !value.contains('"'),
        put_name == name || !put_name.is_suffix_of(name) && !name.is_suffix_of(put_name),
        !name.push('=').is_suffix_of(put_value),
        !put_name.push('=').is_suffix_of(value),
        occurs_at(s, attribute_text(put_name, put_value), from),
        occurs_at(s, attribute_text(name, value), k),
    ensures
        k + attribute_text(name, value).len() <= from || from + attribute_text(
            put_name,
            put_value,
        ).len() <= k || (k == from && put_name == name && put_value == value),
{
    lemma_attribute_parts(s, put_name, put_value, from);
    lemma_attribute_parts(s, name, value, k);
    let q1 = from + put_name.len() + 1;
    let q2 = q1 + put_value.len() + 1;
    let r1 = k + name.len() + 1;
    let r2 = r1 + value.len() + 1;
    if from <= r2 && k <= q2 {
        assert(s[q1] == '"' && s[q2] == '"' && s[r1] == '"' && s[r2] == '"');
        if r2 > q2 {
            lemma_common_end(s, name.push('='), k, put_value, q1 + 1);
        } else if r2 < q2 {
            lemma_common_end(s, put_name.push('='), from, value, r1 + 1);
        } else {
            assert(q1 == r1);
            lemma_common_end(s, value, r1 + 1, put_value, q1 + 1);
            if k <= from {
                lemma_common_end(s, put_name, from, name, k);
            } else {
                lemma_common_end(s, name, k, put_name, from);
            }
        }
    }
}

} // verus!
