//! What splitting, trimming, searching and replacing give, told by how a text is put together.

use vstd::prelude::*;
use crate::cli::optional_text;
use crate::text::{
    ends_with_any, first_occurrence, in_class, is_white_space, join, lemma_first_occurrence,
    lemma_split_single, non_empty, occurs_at, occurs_in, replace_all, split, split_of_two, texts,
    trim, trim_end, trim_start, trimmed_pieces, unquote, CharClass,
};

verus! {

/// A list of strings holds the characters of each string, in order, and an optional string
/// those of the string that is there.
pub proof fn lists_hold_their_strings(list: Seq<String>, one: String)
    ensures
        texts(list).len() == list.len(),
        forall|i: int| 0 <= i < list.len() ==> #[trigger] texts(list)[i] == list[i]@,
        optional_text(Some(one)) == Some(one@),
        optional_text(None) is None,
{
}

/// What the classes of characters hold: blanks and line breaks are white space, the narrow and
/// wide ones too, and nothing that is seen is; there are two quotes; and a class of one
/// character holds that one.
pub proof fn classes_hold_their_characters(c: char, only: char)
    ensures
        is_white_space(c) <==> c == ' ' || '\t' <= c <= '\r' || c == '\u{85}' || c == '\u{a0}' || c
            == '\u{1680}' || '\u{2000}' <= c <= '\u{200a}' || c == '\u{2028}' || c == '\u{2029}'
            || c == '\u{202f}' || c == '\u{205f}' || c == '\u{3000}',
        c == ' ' || c == '\t' || c == '\n' || c == '\r' ==> is_white_space(c),
        '!' <= c <= '~' ==> !is_white_space(c),
        in_class(c, CharClass::WhiteSpace) == is_white_space(c),
        in_class(c, CharClass::Quote) <==> c == '"' || c == '\'',
        in_class(c, CharClass::Only(only)) <==> c == only,
{
}

/// Whether every character of a text is of a class.
pub open spec fn all_in_class(s: Seq<char>, class: CharClass) -> bool {
    forall|i: int| 0 <= i < s.len() ==> in_class(#[trigger] s[i], class)
}

/// Trimming at the start takes away a run of the class and keeps what stands behind it.
pub proof fn trimming_takes_the_run_at_the_start(
    run: Seq<char>,
    rest: Seq<char>,
    class: CharClass,
)
    requires
        all_in_class(run, class),
        rest.len() > 0 ==> !in_class(rest[0], class),
    ensures
        trim_start(run + rest, class) == rest,
    decreases run.len(),
{
    let s = run + rest;
    if run.len() == 0 {
        assert(s =~= rest);
    } else {
        let less = run.drop_first();
        assert forall|i: int| 0 <= i < less.len() implies in_class(#[trigger] less[i], class) by {
            assert(less[i] == run[i + 1]);
        }
        trimming_takes_the_run_at_the_start(less, rest, class);
        assert(in_class(run[0], class));
        assert(s.drop_first() =~= less + rest);
    }
}

/// Trimming at the end takes away a run of the class and keeps what stands before it.
pub proof fn trimming_takes_the_run_at_the_end(rest: Seq<char>, run: Seq<char>, class: CharClass)
    requires
        all_in_class(run, class),
        rest.len() > 0 ==> !in_class(rest.last(), class),
    ensures
        trim_end(rest + run, class) == rest,
    decreases run.len(),
{
    let s = rest + run;
    if run.len() == 0 {
        assert(s =~= rest);
    } else {
        let less = run.drop_last();
        assert forall|i: int| 0 <= i < less.len() implies in_class(#[trigger] less[i], class) by {
            assert(less[i] == run[i]);
        }
        trimming_takes_the_run_at_the_end(rest, less, class);
        assert(in_class(run[run.len() - 1], class));
        assert(s.drop_last() =~= rest + less);
    }
}

/// Trimming takes away the white space round a text and keeps the text.
pub proof fn trimming_keeps_what_white_space_surrounds(
    before: Seq<char>,
    s: Seq<char>,
    after: Seq<char>,
)
    requires
        forall|i: int| 0 <= i < before.len() ==> is_white_space(#[trigger] before[i]),
        forall|i: int| 0 <= i < after.len() ==> is_white_space(#[trigger] after[i]),
        s.len() > 0 ==> !is_white_space(s[0]) && !is_white_space(s.last()),
    ensures
        trim(before + s + after) == s,
{
    let class = CharClass::WhiteSpace;
    assert(all_in_class(before, class));
    assert(all_in_class(after, class));
    if s.len() > 0 {
        assert(before + s + after =~= before + (s + after));
        trimming_takes_the_run_at_the_start(before, s + after, class);
        trimming_takes_the_run_at_the_end(s, after, class);
    } else {
        let all = before + after;
        let none = Seq::<char>::empty();
        assert forall|i: int| 0 <= i < all.len() implies in_class(#[trigger] all[i], class) by {
            if i < before.len() {
                assert(all[i] == before[i]);
            } else {
                assert(all[i] == after[i - before.len()]);
            }
        }
        assert(before + s + after =~= all + none);
        trimming_takes_the_run_at_the_start(all, none, class);
        assert(s =~= none);
    }
}

/// Quotes round a text are taken away, and nothing else is.
pub proof fn quotes_are_taken_away(quote: char, s: Seq<char>)
    requires
        quote == '"' || quote == '\'',
        s.len() > 0,
        s[0] != '"' && s[0] != '\'',
        s.last() != '"' && s.last() != '\'',
    ensures
        unquote(seq![quote] + s + seq![quote]) == s,
        unquote(seq![quote] + s) == s,
        unquote(s + seq![quote]) == s,
        unquote(s) == s,
{
    let class = CharClass::Quote;
    let one = seq![quote];
    let none = Seq::<char>::empty();
    assert(all_in_class(one, class));
    assert(all_in_class(none, class));
    assert(one + s + one =~= one + (s + one));
    trimming_takes_the_run_at_the_start(one, s + one, class);
    trimming_takes_the_run_at_the_start(one, s, class);
    trimming_takes_the_run_at_the_start(none, s + one, class);
    trimming_takes_the_run_at_the_start(none, s, class);
    trimming_takes_the_run_at_the_end(s, one, class);
    trimming_takes_the_run_at_the_end(s, none, class);
    assert(none + (s + one) =~= s + one);
    assert(none + s =~= s);
    assert(s + none =~= s);
}

/// A text is joined of its pieces, with one separator between each two.
pub proof fn joining_puts_separators_between(
    pieces: Seq<Seq<char>>,
    last: Seq<char>,
    sep: char,
)
    ensures
        join(Seq::<Seq<char>>::empty(), sep).len() == 0,
        join(seq![last], sep) == last,
        pieces.len() > 0 ==> join(pieces.push(last), sep) == join(pieces, sep) + seq![sep] + last,
{
    if pieces.len() > 0 {
        assert(pieces.push(last).drop_last() =~= pieces);
        assert(join(pieces, sep).push(sep) + last =~= join(pieces, sep) + seq![sep] + last);
    }
}

/// Of a list of pieces those that hold a character are kept, in order.
pub proof fn empty_pieces_are_left_out(pieces: Seq<Seq<char>>, last: Seq<char>)
    ensures
        non_empty(Seq::<Seq<char>>::empty()).len() == 0,
        last.len() > 0 ==> non_empty(pieces.push(last)) == non_empty(pieces).push(last),
        last.len() == 0 ==> non_empty(pieces.push(last)) == non_empty(pieces),
{
    reveal(Seq::filter);
    assert(pieces.push(last).drop_last() =~= pieces);
}

/// The entries of a text with a separator in it are those of the text before it and then those
/// of the text behind it; and a text without one is an entry itself, without the white space
/// round it, unless nothing is left of it.
pub proof fn entries_stand_between_separators(
    a: Seq<char>,
    b: Seq<char>,
    sep: char,
)
    ensures
        trimmed_pieces(a + seq![sep] + b, sep) == trimmed_pieces(a, sep) + trimmed_pieces(b, sep),
        !a.contains(sep) && trim(a).len() > 0 ==> trimmed_pieces(a, sep) == seq![trim(a)],
        !a.contains(sep) && trim(a).len() == 0 ==> trimmed_pieces(a, sep).len() == 0,
{
    let f = |p: Seq<char>| trim(p);
    let keep = |p: Seq<char>| p.len() > 0;
    let left = split(a, sep).map_values(f);
    let right = split(b, sep).map_values(f);
    split_of_two(a, b, sep);
    assert(a.push(sep) + b =~= a + seq![sep] + b);
    assert((split(a, sep) + split(b, sep)).map_values(f) =~= left + right);
    Seq::filter_distributes_over_add(left, right, keep);
    if !a.contains(sep) {
        lemma_split_single(a, sep);
        let all = split(a, sep).map_values(f);
        assert(all =~= seq![trim(a)]);
        let none = Seq::<Seq<char>>::empty();
        assert(seq![trim(a)] =~= none.push(trim(a)));
        empty_pieces_are_left_out(none, trim(a));
        assert(non_empty(none) =~= none);
    }
}

/// Each suffix of a list counts, whatever its place, and nothing else does.
pub proof fn every_suffix_counts(s: Seq<char>, suffixes: Seq<Seq<char>>, i: int)
    ensures
        0 <= i < suffixes.len() ==> ends_with_any(s + suffixes[i], suffixes),
        0 <= i < suffixes.len() && suffixes[i].is_suffix_of(s) ==> ends_with_any(s, suffixes),
        (forall|j: int| 0 <= j < suffixes.len() ==> !(#[trigger] suffixes[j]).is_suffix_of(s))
            ==> !ends_with_any(s, suffixes),
{
    if 0 <= i < suffixes.len() {
        let whole = s + suffixes[i];
        assert(suffixes[i] =~= whole.subrange(
            whole.len() - suffixes[i].len(),
            whole.len() as int,
        ));
    }
}

/// A text occurs where it stands between two others, and wherever it occurs it stands between
/// two others.
pub proof fn texts_occur_between_others(a: Seq<char>, p: Seq<char>, b: Seq<char>)
    ensures
        occurs_at(a + p + b, p, a.len() as int),
        occurs_in(a + p + b, p),
{
    let s = a + p + b;
    assert(s.subrange(a.len() as int, a.len() as int + p.len()) =~= p);
}

/// A text that occurs in another stands in it between two others.
pub proof fn what_occurs_stands_between_others(s: Seq<char>, p: Seq<char>)
    ensures
        forall|i: int| #[trigger]
            occurs_at(s, p, i) ==> 0 <= i && i + p.len() <= s.len() && s == s.take(i) + p + s.skip(
                i + p.len(),
            ),
        occurs_in(s, p) ==> exists|a: Seq<char>, b: Seq<char>| s == #[trigger] (a + p + b),
{
    assert forall|i: int| #[trigger] occurs_at(s, p, i) implies 0 <= i && i + p.len() <= s.len()
        && s == s.take(i) + p + s.skip(i + p.len()) by {
        assert(s.subrange(i, i + p.len()) == p);
        assert(s =~= s.take(i) + p + s.skip(i + p.len()));
    }
    if occurs_in(s, p) {
        let i = choose|i: int| occurs_at(s, p, i);
        assert(s == s.take(i) + p + s.skip(i + p.len()));
    }
}

/// Whether a text stands nowhere in another before a position.
pub open spec fn stands_nowhere_before(s: Seq<char>, p: Seq<char>, to: int) -> bool {
    forall|k: int| 0 <= k < to && k + p.len() <= s.len() ==> #[trigger] s.subrange(k, k + p.len())
        != p
}

/// Searching finds the first place, and none where there is none.
pub proof fn searching_finds_the_first(a: Seq<char>, p: Seq<char>, b: Seq<char>)
    ensures
        stands_nowhere_before(a + p + b, p, a.len() as int) ==> first_occurrence(a + p + b, p, 0)
            == Some(a.len() as int),
        stands_nowhere_before(a, p, a.len() as int + 1) ==> first_occurrence(a, p, 0) is None,
{
    let s = a + p + b;
    texts_occur_between_others(a, p, b);
    lemma_first_occurrence(s, p, 0);
    lemma_first_occurrence(a, p, 0);
    if stands_nowhere_before(s, p, a.len() as int) {
        if let Some(i) = first_occurrence(s, p, 0) {
            if i < a.len() {
                assert(s.subrange(i, i + p.len()) == p);
            }
        }
    }
    if stands_nowhere_before(a, p, a.len() as int + 1) {
        if let Some(i) = first_occurrence(a, p, 0) {
            assert(a.subrange(i, i + p.len()) == p);
        }
    }
}

/// Replacing puts the new text in the first place where the old one stands, goes on behind it,
/// and keeps a text in which the old one does not stand.
pub proof fn replacing_goes_from_left_to_right(
    a: Seq<char>,
    p: Seq<char>,
    b: Seq<char>,
    r: Seq<char>,
)
    requires
        p.len() > 0,
    ensures
        stands_nowhere_before(a + p + b, p, a.len() as int) ==> replace_all(a + p + b, p, r) == a
            + r + replace_all(b, p, r),
        stands_nowhere_before(a, p, a.len() as int + 1) ==> replace_all(a, p, r) == a,
{
    let s = a + p + b;
    searching_finds_the_first(a, p, b);
    if stands_nowhere_before(s, p, a.len() as int) {
        assert(s.take(a.len() as int) =~= a);
        assert(s.skip(a.len() as int + p.len()) =~= b);
    }
}

} // verus!
