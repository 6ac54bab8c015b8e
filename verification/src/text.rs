//! Text as sequences of characters: splitting, trimming, searching, replacing.

use vstd::prelude::*;

verus! {

/// `String::push` appends one character to the end of the string.
pub assume_specification[ String::push ](string: &mut String, c: char)
    ensures
        final(string)@ == old(string)@.push(c),
;

/// The character sequences that a list of strings holds.
pub open spec fn texts(list: Seq<String>) -> Seq<Seq<char>> {
    list.map_values(|s: String| s@)
}

/// The characters with Unicode's White_Space property.
pub open spec fn is_white_space(c: char) -> bool {
    let n = c as u32;
    ||| 0x9 <= n <= 0xd
    ||| n == 0x20
    ||| n == 0x85
    ||| n == 0xa0
    ||| n == 0x1680
    ||| 0x2000 <= n <= 0x200a
    ||| n == 0x2028
    ||| n == 0x2029
    ||| n == 0x202f
    ||| n == 0x205f
    ||| n == 0x3000
}

/// The characters that trimming removes.
#[derive(Clone, Copy)]
pub enum CharClass {
    WhiteSpace,
    Quote,
    Only(char),
}

/// Whether trimming by `class` removes `c`.
pub open spec fn in_class(c: char, class: CharClass) -> bool {
    match class {
        CharClass::WhiteSpace => is_white_space(c),
        CharClass::Quote => c == '\'' || c == '"',
        CharClass::Only(only) => c == only,
    }
}

/// `s` without the longest run of characters of `class` at its start.
pub open spec fn trim_start(s: Seq<char>, class: CharClass) -> Seq<char>
    decreases s.len(),
{
    if s.len() > 0 && in_class(s[0], class) {
        trim_start(s.drop_first(), class)
    } else {
        s
    }
}

/// `s` without the longest run of characters of `class` at its end.
pub open spec fn trim_end(s: Seq<char>, class: CharClass) -> Seq<char>
    decreases s.len(),
{
    if s.len() > 0 && in_class(s.last(), class) {
        trim_end(s.drop_last(), class)
    } else {
        s
    }
}

/// `s` without white space at either end.
pub open spec fn trim(s: Seq<char>) -> Seq<char> {
    trim_end(trim_start(s, CharClass::WhiteSpace), CharClass::WhiteSpace)
}

/// `s` without the quotes at its ends.
pub open spec fn unquote(s: Seq<char>) -> Seq<char> {
    trim_end(trim_start(s, CharClass::Quote), CharClass::Quote)
}

/// The pieces of `s` between occurrences of `sep`; a text without `sep` is one piece.
pub open spec fn split(s: Seq<char>, sep: char) -> Seq<Seq<char>>
    decreases s.len(),
{
    if s.len() == 0 {
        seq![s]
    } else {
        let before = split(s.drop_last(), sep);
        if s.last() == sep {
            before.push(Seq::empty())
        } else {
            before.drop_last().push(before.last().push(s.last()))
        }
    }
}

/// The pieces with one `sep` between each two of them.
pub open spec fn join(pieces: Seq<Seq<char>>, sep: char) -> Seq<char>
    decreases pieces.len(),
{
    if pieces.len() == 0 {
        Seq::empty()
    } else if pieces.len() == 1 {
        pieces[0]
    } else {
        join(pieces.drop_last(), sep).push(sep) + pieces.last()
    }
}

/// The pieces that hold at least one character.
pub open spec fn non_empty(pieces: Seq<Seq<char>>) -> Seq<Seq<char>> {
    pieces.filter(|p: Seq<char>| p.len() > 0)
}

/// The pieces between occurrences of `sep`, trimmed, without those that are then empty.
pub open spec fn trimmed_pieces(s: Seq<char>, sep: char) -> Seq<Seq<char>> {
    non_empty(split(s, sep).map_values(|p: Seq<char>| trim(p)))
}

/// Whether `s` ends with any of the texts.
pub open spec fn ends_with_any(s: Seq<char>, suffixes: Seq<Seq<char>>) -> bool {
    exists|i: int| 0 <= i < suffixes.len() && (#[trigger] suffixes[i]).is_suffix_of(s)
}

/// Whether `p` stands in `s` from position `i` on.
pub open spec fn occurs_at(s: Seq<char>, p: Seq<char>, i: int) -> bool {
    &&& 0 <= i
    &&& i + p.len() <= s.len()
    &&& s.subrange(i, i + p.len()) == p
}

/// Whether `p` stands anywhere in `s`.
pub open spec fn occurs_in(s: Seq<char>, p: Seq<char>) -> bool {
    exists|i: int| occurs_at(s, p, i)
}

/// The first position at or after `from` at which `p` stands in `s`.
pub open spec fn first_occurrence(s: Seq<char>, p: Seq<char>, from: int) -> Option<int>
    decreases s.len() - from + 1,
{
    if from + p.len() > s.len() {
        None
    } else if occurs_at(s, p, from) {
        Some(from)
    } else {
        first_occurrence(s, p, from + 1)
    }
}

/// Whether texts stand in `s` at the given positions, one behind the other without overlap.
pub open spec fn stand_at(s: Seq<char>, parts: Seq<Seq<char>>, positions: Seq<int>) -> bool {
    &&& positions.len() == parts.len()
    &&& forall|i: int|
        0 <= i < parts.len() ==> occurs_at(s, #[trigger] parts[i], positions[i])
    &&& forall|i: int, j: int|
        0 <= i < j < parts.len() ==> (#[trigger] positions[i]) + parts[i].len()
            <= #[trigger] positions[j]
}

/// Whether texts stand in `s` one behind the other without overlap.
pub open spec fn stand_in_order(s: Seq<char>, parts: Seq<Seq<char>>) -> bool {
    exists|positions: Seq<int>| stand_at(s, parts, positions)
}

/// `s` with every occurrence of `p` replaced by `r`, found from left to right without overlap.
pub open spec fn replace_all(s: Seq<char>, p: Seq<char>, r: Seq<char>) -> Seq<char>
    decreases s.len(),
{
    match first_occurrence(s, p, 0) {
        Some(i) if 0 <= i && 0 < p.len() && i + p.len() <= s.len() => s.take(i) + r + replace_all(
            s.skip(i + p.len()),
            p,
            r,
        ),
        _ => s,
    }
}

/// The list of character sequences grows by the pushed string's characters.
pub proof fn lemma_texts_push(list: Seq<String>, s: String)
    ensures
        texts(list.push(s)) == texts(list).push(s@),
{
    assert(texts(list.push(s)) =~= texts(list).push(s@));
}

/// The characters of a string.
pub fn to_chars(s: &str) -> (chars: Vec<char>)
    ensures
        chars@ == s@,
{
    let mut chars: Vec<char> = Vec::new();
    for c in it: s.chars()
        invariant
            chars@ == it.seq().take(it.index() as int),
            it.seq() == s@,
    {
        chars.push(c);
    }
    chars
}

/// The string of the characters from position `from` up to `to`.
pub fn substring(chars: &Vec<char>, from: usize, to: usize) -> (s: String)
    requires
        from <= to <= chars@.len(),
    ensures
        s@ == chars@.subrange(from as int, to as int),
{
    let mut s = String::new();
    let mut i: usize = from;
    while i < to
        invariant
            from <= i <= to <= chars@.len(),
            s@ == chars@.subrange(from as int, i as int),
        decreases to - i,
    {
        s.push(chars[i]);
        i += 1;
    }
    s
}

/// Whether a character has Unicode's White_Space property.
pub fn white_space(c: char) -> (r: bool)
    ensures
        r == is_white_space(c),
{
    let n: u32 = c as u32;
    (0x9 <= n && n <= 0xd) || n == 0x20 || n == 0x85 || n == 0xa0 || n == 0x1680 || (0x2000 <= n
        && n <= 0x200a) || n == 0x2028 || n == 0x2029 || n == 0x202f || n == 0x205f || n == 0x3000
}

/// Whether trimming by a class removes a character.
pub fn is_in_class(c: char, class: CharClass) -> (r: bool)
    ensures
        r == in_class(c, class),
{
    match class {
        CharClass::WhiteSpace => white_space(c),
        CharClass::Quote => c == '\'' || c == '"',
        CharClass::Only(only) => c == only,
    }
}

/// Removes the longest run of characters of a class at the start.
pub fn without_leading(s: &str, class: CharClass) -> (r: String)
    ensures
        r@ == trim_start(s@, class),
{
    let chars = to_chars(s);
    let mut i: usize = 0;
    assert(s@.skip(0) =~= s@);
    while i < chars.len() && is_in_class(chars[i], class)
        invariant
            i <= chars@.len(),
            chars@ == s@,
            trim_start(s@, class) == trim_start(s@.skip(i as int), class),
        decreases chars@.len() - i,
    {
        assert(s@.skip(i as int).drop_first() =~= s@.skip(i + 1));
        i += 1;
    }
    assert(s@.skip(i as int) =~= s@.subrange(i as int, s@.len() as int));
    substring(&chars, i, chars.len())
}

/// Removes the longest run of characters of a class at the end.
pub fn without_trailing(s: &str, class: CharClass) -> (r: String)
    ensures
        r@ == trim_end(s@, class),
{
    let chars = to_chars(s);
    let mut i: usize = chars.len();
    assert(s@.take(i as int) =~= s@);
    while i > 0 && is_in_class(chars[i - 1], class)
        invariant
            i <= chars@.len(),
            chars@ == s@,
            trim_end(s@, class) == trim_end(s@.take(i as int), class),
        decreases i,
    {
        assert(s@.take(i as int).drop_last() =~= s@.take(i - 1));
        i -= 1;
    }
    assert(s@.take(i as int) =~= s@.subrange(0, i as int));
    substring(&chars, 0, i)
}

/// Removes the white space at both ends.
pub fn trimmed(s: &str) -> (r: String)
    ensures
        r@ == trim(s@),
{
    let rest = without_leading(s, CharClass::WhiteSpace);
    without_trailing(rest.as_str(), CharClass::WhiteSpace)
}

/// Removes the quotes at both ends.
pub fn unquoted(s: &str) -> (r: String)
    ensures
        r@ == unquote(s@),
{
    let rest = without_leading(s, CharClass::Quote);
    without_trailing(rest.as_str(), CharClass::Quote)
}

/// The pieces of a text between occurrences of a separator.
pub fn pieces(s: &str, sep: char) -> (r: Vec<String>)
    ensures
        texts(r@) == split(s@, sep),
{
    let chars = to_chars(s);
    let mut done: Vec<String> = Vec::new();
    let mut piece = String::new();
    let mut i: usize = 0;
    assert(s@.take(0) =~= piece@);
    assert(split(s@.take(0), sep) =~= texts(done@).push(piece@));
    while i < chars.len()
        invariant
            i <= chars@.len(),
            chars@ == s@,
            split(s@.take(i as int), sep) == texts(done@).push(piece@),
        decreases chars@.len() - i,
    {
        let c = chars[i];
        let ghost before = texts(done@).push(piece@);
        assert(s@.take(i + 1).drop_last() =~= s@.take(i as int));
        assert(before.drop_last() =~= texts(done@));
        if c == sep {
            proof {
                lemma_texts_push(done@, piece);
            }
            done.push(piece);
            piece = String::new();
        } else {
            piece.push(c);
        }
        i += 1;
    }
    assert(s@.take(i as int) =~= s@);
    proof {
        lemma_texts_push(done@, piece);
    }
    done.push(piece);
    done
}

/// The trimmed pieces of a text that are not empty.
pub fn non_empty_trimmed_pieces(s: &str, sep: char) -> (r: Vec<String>)
    ensures
        texts(r@) == trimmed_pieces(s@, sep),
{
    let all = pieces(s, sep);
    let ghost whole = split(s@, sep).map_values(|p: Seq<char>| trim(p));
    let mut kept: Vec<String> = Vec::new();
    let mut i: usize = 0;
    assert(texts(kept@) =~= non_empty(whole.take(0))) by {
        reveal(Seq::filter);
    }
    while i < all.len()
        invariant
            i <= all@.len(),
            texts(all@) == split(s@, sep),
            whole == split(s@, sep).map_values(|p: Seq<char>| trim(p)),
            texts(kept@) == non_empty(whole.take(i as int)),
        decreases all@.len() - i,
    {
        let piece = trimmed(all[i].as_str());
        proof {
            assert(texts(all@)[i as int] == all@[i as int]@);
            assert(whole[i as int] == piece@);
            assert(whole.take(i + 1).drop_last() =~= whole.take(i as int));
            reveal(Seq::filter);
            lemma_texts_push(kept@, piece);
        }
        if !piece.as_str().is_empty() {
            kept.push(piece);
        }
        i += 1;
    }
    assert(whole.take(i as int) =~= whole);
    kept
}

/// Whether `p` stands in a text from position `i` on.
pub fn stands_at(s: &Vec<char>, p: &Vec<char>, i: usize) -> (r: bool)
    ensures
        r == occurs_at(s@, p@, i as int),
{
    let len = s.len();
    if i > len || p.len() > len - i {
        return false;
    }
    let mut k: usize = 0;
    while k < p.len()
        invariant
            k <= p@.len(),
            len == s@.len(),
            i + p@.len() <= len,
            forall|j: int| 0 <= j < k ==> s@[i + j] == p@[j],
        decreases p@.len() - k,
    {
        if s[i + k] != p[k] {
            assert(s@.subrange(i as int, i + p@.len())[k as int] == s@[i + k]);
            return false;
        }
        k += 1;
    }
    assert(s@.subrange(i as int, i + p@.len()) =~= p@);
    true
}

/// The first position at or after `from` at which `p` stands in a text.
pub fn find(s: &Vec<char>, p: &Vec<char>, from: usize) -> (r: Option<usize>)
    ensures
        match r {
            Some(i) => first_occurrence(s@, p@, from as int) == Some(i as int),
            None => first_occurrence(s@, p@, from as int) is None,
        },
{
    let mut i: usize = from;
    loop
        invariant
            first_occurrence(s@, p@, from as int) == first_occurrence(s@, p@, i as int),
        decreases s@.len() - i + 1,
    {
        if i > s.len() || p.len() > s.len() - i {
            return None;
        }
        if stands_at(s, p, i) {
            return Some(i);
        }
        if i == s.len() {
            assert(s@.subrange(i as int, i + p@.len()) =~= p@);
            return None;
        }
        i += 1;
    }
}

/// Searching the rest of a text from its start is searching the text from there.
pub proof fn lemma_first_occurrence_skip(s: Seq<char>, p: Seq<char>, k: int, from: int)
    requires
        0 <= k <= s.len(),
        0 <= from,
    ensures
        first_occurrence(s.skip(k), p, from) == match first_occurrence(s, p, k + from) {
            Some(i) => Some(i - k),
            None => None::<int>,
        },
    decreases s.len() - k - from + 1,
{
    if k + from + p.len() <= s.len() {
        assert(s.skip(k).subrange(from, from + p.len()) =~= s.subrange(
            k + from,
            k + from + p.len(),
        ));
        if !occurs_at(s, p, k + from) {
            if k + from < s.len() {
                lemma_first_occurrence_skip(s, p, k, from + 1);
            } else {
                assert(s.subrange(k + from, k + from + p.len()) =~= p);
            }
        }
    }
}

/// A position that is found is one at which the pattern stands, and the first.
pub proof fn lemma_first_occurrence(s: Seq<char>, p: Seq<char>, from: int)
    requires
        0 <= from,
    ensures
        first_occurrence(s, p, from) matches Some(i) ==> from <= i && occurs_at(s, p, i) && forall|
            j: int,
        |
            from <= j < i ==> !occurs_at(s, p, j),
        first_occurrence(s, p, from) is None ==> forall|j: int|
            from <= j ==> !occurs_at(s, p, j),
    decreases s.len() - from + 1,
{
    if from + p.len() <= s.len() && !occurs_at(s, p, from) {
        lemma_first_occurrence(s, p, from + 1);
    }
}

/// Appends the characters of a range of `chars`.
pub fn push_range(out: &mut Vec<char>, chars: &Vec<char>, from: usize, to: usize)
    requires
        from <= to <= chars@.len(),
    ensures
        final(out)@ == old(out)@ + chars@.subrange(from as int, to as int),
{
    let mut i: usize = from;
    assert(out@ =~= old(out)@ + chars@.subrange(from as int, i as int));
    while i < to
        invariant
            from <= i <= to <= chars@.len(),
            out@ == old(out)@ + chars@.subrange(from as int, i as int),
        decreases to - i,
    {
        out.push(chars[i]);
        i += 1;
        assert(out@ =~= old(out)@ + chars@.subrange(from as int, i as int));
    }
}

/// Replaces every occurrence of `p`, found from left to right without overlap.
pub fn replaced(s: &str, p: &str, r: &str) -> (out: String)
    requires
        p@.len() > 0,
    ensures
        out@ == replace_all(s@, p@, r@),
{
    let text = to_chars(s);
    let pattern = to_chars(p);
    let by = to_chars(r);
    let len = text.len();
    let mut out: Vec<char> = Vec::new();
    let mut pos: usize = 0;
    assert(out@ + replace_all(s@.skip(0), p@, r@) =~= replace_all(s@, p@, r@)) by {
        assert(s@.skip(0) =~= s@);
    }
    loop
        invariant
            text@ == s@,
            pattern@ == p@,
            by@ == r@,
            len == s@.len(),
            p@.len() > 0,
            pos <= len,
            replace_all(s@, p@, r@) == out@ + replace_all(s@.skip(pos as int), p@, r@),
        decreases len - pos,
    {
        let ghost start = pos as int;
        let ghost rest = s@.skip(start);
        let ghost before = out@;
        proof {
            lemma_first_occurrence(s@, p@, start);
            lemma_first_occurrence_skip(s@, p@, start, 0);
        }
        match find(&text, &pattern, pos) {
            Some(i) => {
                push_range(&mut out, &text, pos, i);
                push_range(&mut out, &by, 0, by.len());
                pos = i + pattern.len();
                proof {
                    assert(rest.take(i - start) =~= s@.subrange(start, i as int));
                    assert(rest.skip(i - start + p@.len()) =~= s@.skip(pos as int));
                    assert(r@.subrange(0, r@.len() as int) =~= r@);
                    let tail = replace_all(s@.skip(pos as int), p@, r@);
                    assert(replace_all(rest, p@, r@) == rest.take(i - start) + r@ + tail);
                    assert(out@ + tail =~= before + (rest.take(i - start) + r@ + tail));
                }
            },
            None => {
                push_range(&mut out, &text, pos, len);
                assert(rest =~= s@.subrange(start, len as int));
                let n = out.len();
                assert(out@.subrange(0, n as int) =~= out@);
                return substring(&out, 0, n);
            },
        }
    }
}

/// Whether a text begins with `p`.
pub fn starts_with(s: &str, p: &str) -> (r: bool)
    ensures
        r == p@.is_prefix_of(s@),
{
    let text = to_chars(s);
    let pattern = to_chars(p);
    stands_at(&text, &pattern, 0)
}

/// Whether a text ends with `p`.
pub fn ends_with(s: &str, p: &str) -> (r: bool)
    ensures
        r == p@.is_suffix_of(s@),
{
    let text = to_chars(s);
    let pattern = to_chars(p);
    if pattern.len() > text.len() {
        return false;
    }
    stands_at(&text, &pattern, text.len() - pattern.len())
}

/// Whether `p` stands anywhere in a text.
pub fn contains(s: &str, p: &str) -> (r: bool)
    ensures
        r == occurs_in(s@, p@),
{
    let text = to_chars(s);
    let pattern = to_chars(p);
    proof {
        lemma_first_occurrence(s@, p@, 0);
    }
    match find(&text, &pattern, 0) {
        Some(i) => {
            assert(occurs_at(s@, p@, i as int));
            true
        },
        None => false,
    }
}

/// Whether a character stands anywhere in a text.
pub fn contains_char(s: &str, c: char) -> (r: bool)
    ensures
        r == s@.contains(c),
{
    let text = to_chars(s);
    let mut i: usize = 0;
    while i < text.len()
        invariant
            i <= text@.len(),
            text@ == s@,
            forall|j: int| 0 <= j < i ==> s@[j] != c,
        decreases text@.len() - i,
    {
        if text[i] == c {
            assert(s@[i as int] == c);
            return true;
        }
        i += 1;
    }
    false
}

/// Whether two texts hold the same characters.
pub fn same_text(a: &str, b: &str) -> (r: bool)
    ensures
        r == (a@ == b@),
{
    let left = to_chars(a);
    let right = to_chars(b);
    if left.len() != right.len() {
        return false;
    }
    assert(a@.subrange(0, a@.len() as int) =~= a@);
    stands_at(&left, &right, 0)
}

/// The first character of a text.
pub fn first_char(s: &str) -> (r: Option<char>)
    ensures
        match r {
            Some(c) => s@.len() > 0 && c == s@[0],
            None => s@.len() == 0,
        },
{
    let text = to_chars(s);
    if text.len() == 0 {
        None
    } else {
        Some(text[0])
    }
}

/// The last character of a text.
pub fn last_char(s: &str) -> (r: Option<char>)
    ensures
        match r {
            Some(c) => s@.len() > 0 && c == s@.last(),
            None => s@.len() == 0,
        },
{
    let text = to_chars(s);
    if text.len() == 0 {
        None
    } else {
        Some(text[text.len() - 1])
    }
}

/// Whether any text of a list ends the given one.
pub fn any_suffix(list: &Vec<String>, s: &str) -> (r: bool)
    ensures
        r == ends_with_any(s@, texts(list@)),
{
    let mut i: usize = 0;
    while i < list.len()
        invariant
            i <= list@.len(),
            forall|j: int| 0 <= j < i ==> !(#[trigger] texts(list@)[j]).is_suffix_of(s@),
        decreases list@.len() - i,
    {
        assert(texts(list@)[i as int] == list@[i as int]@);
        if ends_with(s, list[i].as_str()) {
            return true;
        }
        i += 1;
    }
    false
}

/// Whether a list holds a text.
pub fn holds_text(list: &Vec<String>, s: &str) -> (r: bool)
    ensures
        r == texts(list@).contains(s@),
{
    let mut i: usize = 0;
    while i < list.len()
        invariant
            i <= list@.len(),
            forall|j: int| 0 <= j < i ==> texts(list@)[j] != s@,
        decreases list@.len() - i,
    {
        if same_text(list[i].as_str(), s) {
            assert(texts(list@)[i as int] == s@);
            return true;
        }
        i += 1;
    }
    false
}

/// A text is at least one piece.
pub proof fn lemma_split_len(s: Seq<char>, sep: char)
    ensures
        split(s, sep).len() > 0,
    decreases s.len(),
{
    if s.len() > 0 {
        lemma_split_len(s.drop_last(), sep);
    }
}

/// No piece holds the separator.
pub proof fn pieces_hold_no_separator(s: Seq<char>, sep: char)
    ensures
        forall|i: int| 0 <= i < split(s, sep).len() ==> !(#[trigger] split(s, sep)[i]).contains(sep),
    decreases s.len(),
{
    if s.len() > 0 {
        pieces_hold_no_separator(s.drop_last(), sep);
        lemma_split_len(s.drop_last(), sep);
        let before = split(s.drop_last(), sep);
        let last = before.last().push(s.last());
        assert forall|i: int| 0 <= i < split(s, sep).len() implies !(#[trigger] split(
            s,
            sep,
        )[i]).contains(sep) by {
            if s.last() != sep && i == before.len() - 1 {
                assert(!before[i].contains(sep));
                assert forall|j: int| 0 <= j < last.len() implies last[j] != sep by {
                    if j < before.last().len() {
                        assert(before.last()[j] != sep);
                    }
                }
            } else if i < before.len() {
                assert(split(s, sep)[i] == before[i]);
            }
        }
    }
}

/// Splitting at a separator that stands between two texts splits the two.
pub proof fn split_of_two(a: Seq<char>, b: Seq<char>, sep: char)
    ensures
        split(a.push(sep) + b, sep) == split(a, sep) + split(b, sep),
    decreases b.len(),
{
    let s = a.push(sep) + b;
    lemma_split_len(a, sep);
    if b.len() == 0 {
        assert(b =~= Seq::empty());
        assert(s.drop_last() =~= a);
        assert(split(s, sep) =~= split(a, sep) + split(b, sep));
    } else {
        split_of_two(a, b.drop_last(), sep);
        lemma_split_len(b.drop_last(), sep);
        assert(s.drop_last() =~= a.push(sep) + b.drop_last());
        assert(split(s, sep) =~= split(a, sep) + split(b, sep));
    }
}

/// Joining the pieces of a text gives the text back.
pub proof fn join_undoes_split(s: Seq<char>, sep: char)
    ensures
        join(split(s, sep), sep) == s,
    decreases s.len(),
{
    if s.len() > 0 {
        let before = split(s.drop_last(), sep);
        join_undoes_split(s.drop_last(), sep);
        lemma_split_len(s.drop_last(), sep);
        if s.last() == sep {
            assert(split(s, sep).drop_last() =~= before);
            assert(join(split(s, sep), sep) =~= s);
        } else {
            assert(split(s, sep).drop_last() =~= before.drop_last());
            assert(join(split(s, sep), sep) =~= join(before, sep).push(s.last()));
            assert(s =~= s.drop_last().push(s.last()));
        }
    }
}

/// A text without the separator is one piece.
pub proof fn lemma_split_single(s: Seq<char>, sep: char)
    requires
        !s.contains(sep),
    ensures
        split(s, sep) == seq![s],
    decreases s.len(),
{
    if s.len() > 0 {
        let front = s.drop_last();
        assert(forall|i: int| 0 <= i < front.len() ==> front[i] == s[i]);
        lemma_split_single(front, sep);
        assert(s.last() != sep);
        assert(s =~= front.push(s.last()));
        assert(split(s, sep) =~= seq![s]);
    }
}

/// Splitting what was joined gives the pieces back, where none of them holds the separator.
pub proof fn split_undoes_join(pieces: Seq<Seq<char>>, sep: char)
    requires
        pieces.len() > 0,
        forall|i: int| 0 <= i < pieces.len() ==> !(#[trigger] pieces[i]).contains(sep),
    ensures
        split(join(pieces, sep), sep) == pieces,
    decreases pieces.len(),
{
    assert(!pieces.last().contains(sep));
    lemma_split_single(pieces.last(), sep);
    if pieces.len() == 1 {
        assert(pieces =~= seq![pieces[0]]);
    } else {
        let front = pieces.drop_last();
        assert forall|i: int| 0 <= i < front.len() implies !(#[trigger] front[i]).contains(sep) by {
            assert(front[i] == pieces[i]);
        }
        split_undoes_join(front, sep);
        split_of_two(join(front, sep), pieces.last(), sep);
        assert(pieces =~= front + seq![pieces.last()]);
    }
}

/// What `trim_start` leaves stood at the end of the text, and begins with no character of the
/// class.
proof fn lemma_trim_start(s: Seq<char>, class: CharClass)
    ensures
        trim_start(s, class).is_suffix_of(s),
        trim_start(s, class).len() > 0 ==> !in_class(trim_start(s, class)[0], class),
    decreases s.len(),
{
    if s.len() > 0 && in_class(s[0], class) {
        let rest = s.drop_first();
        lemma_trim_start(rest, class);
        let t = trim_start(rest, class);
        assert(t =~= s.subrange(s.len() - t.len(), s.len() as int)) by {
            assert forall|i: int| 0 <= i < t.len() implies t[i] == s[s.len() - t.len() + i] by {
                assert(t[i] == rest.subrange(rest.len() - t.len(), rest.len() as int)[i]);
            }
        }
    } else {
        assert(s =~= s.subrange(0, s.len() as int));
    }
}

/// What `trim_end` leaves stood at the start of the text, and ends with no character of the
/// class.
proof fn lemma_trim_end(s: Seq<char>, class: CharClass)
    ensures
        trim_end(s, class).is_prefix_of(s),
        trim_end(s, class).len() > 0 ==> !in_class(trim_end(s, class).last(), class),
    decreases s.len(),
{
    if s.len() > 0 && in_class(s.last(), class) {
        let front = s.drop_last();
        lemma_trim_end(front, class);
        let t = trim_end(front, class);
        assert(t =~= s.subrange(0, t.len() as int)) by {
            assert forall|i: int| 0 <= i < t.len() implies t[i] == s[i] by {
                assert(t[i] == front.subrange(0, t.len() as int)[i]);
            }
        }
    } else {
        assert(s =~= s.subrange(0, s.len() as int));
    }
}

/// A trimmed text has no white space at its ends, so that trimming it again changes nothing;
/// and it holds no character that the text did not hold.
pub proof fn trimming_is_final(s: Seq<char>)
    ensures
        trim(trim(s)) == trim(s),
        trim(s).len() > 0 ==> !is_white_space(trim(s)[0]) && !is_white_space(trim(s).last()),
        forall|c: char| trim(s).contains(c) ==> s.contains(c),
{
    let class = CharClass::WhiteSpace;
    let t = trim_start(s, class);
    let r = trim(s);
    lemma_trim_start(s, class);
    lemma_trim_end(t, class);
    if r.len() > 0 {
        assert(r[0] == t.subrange(0, r.len() as int)[0]);
        assert(trim_start(r, class) == r);
    }
    assert forall|c: char| r.contains(c) implies s.contains(c) by {
        let i = choose|i: int| 0 <= i < r.len() && r[i] == c;
        assert(r[i] == t.subrange(0, r.len() as int)[i]);
        assert(t[i] == s.subrange(s.len() - t.len(), s.len() as int)[i]);
        assert(s[s.len() - t.len() + i] == c);
    }
}

/// The entries of a list are trimmed, not empty, and hold no separator.
pub proof fn entries_are_clean(s: Seq<char>, sep: char)
    ensures
        forall|i: int|
            0 <= i < trimmed_pieces(s, sep).len() ==> {
                let entry = #[trigger] trimmed_pieces(s, sep)[i];
                entry.len() > 0 && !entry.contains(sep) && trim(entry) == entry
            },
{
    let parts = split(s, sep);
    let all = parts.map_values(|p: Seq<char>| trim(p));
    let keep = |p: Seq<char>| p.len() > 0;
    pieces_hold_no_separator(s, sep);
    assert forall|i: int| 0 <= i < trimmed_pieces(s, sep).len() implies {
        let entry = #[trigger] trimmed_pieces(s, sep)[i];
        entry.len() > 0 && !entry.contains(sep) && trim(entry) == entry
    } by {
        all.lemma_filter_pred(keep, i);
        lemma_filter_from(all, keep, i);
        let j = choose|j: int| 0 <= j < all.len() && all[j] == all.filter(keep)[i];
        trimming_is_final(parts[j]);
        assert(!parts[j].contains(sep));
    }
}

/// What a filter keeps stood in the sequence.
proof fn lemma_filter_from<A>(s: Seq<A>, keep: spec_fn(A) -> bool, i: int)
    requires
        0 <= i < s.filter(keep).len(),
    ensures
        exists|j: int| 0 <= j < s.len() && s[j] == s.filter(keep)[i],
    decreases s.len(),
{
    reveal(Seq::filter);
    if s.len() > 0 {
        let front = s.drop_last();
        if i < front.filter(keep).len() {
            lemma_filter_from(front, keep, i);
            let j = choose|j: int| 0 <= j < front.len() && front[j] == front.filter(keep)[i];
            assert(s[j] == s.filter(keep)[i]);
        } else {
            assert(s[s.len() - 1] == s.filter(keep)[i]);
        }
    }
}

/// Texts that are kept, each followed by one that is put behind it.
pub open spec fn weave(kept: Seq<Seq<char>>, put: Seq<Seq<char>>) -> Seq<char>
    decreases kept.len(),
{
    if kept.len() == 0 {
        Seq::empty()
    } else {
        weave(kept.drop_last(), put.drop_last()) + kept.last() + put.last()
    }
}

/// Whether `after` is `before` with the texts `old_texts`, one behind the other, replaced by
/// the texts `new_texts`, and everything else kept.
pub open spec fn rewrites(
    before: Seq<char>,
    after: Seq<char>,
    old_texts: Seq<Seq<char>>,
    new_texts: Seq<Seq<char>>,
) -> bool {
    exists|kept: Seq<Seq<char>>, tail: Seq<char>|
        is_rewrite(before, after, old_texts, new_texts, kept, tail)
}

/// Whether `before` and `after` are made of the same kept texts, and of the old and the new
/// texts between them.
pub open spec fn is_rewrite(
    before: Seq<char>,
    after: Seq<char>,
    old_texts: Seq<Seq<char>>,
    new_texts: Seq<Seq<char>>,
    kept: Seq<Seq<char>>,
    tail: Seq<char>,
) -> bool {
    &&& kept.len() == old_texts.len() == new_texts.len()
    &&& before == weave(kept, old_texts) + tail
    &&& after == weave(kept, new_texts) + tail
}

/// The first texts of a weave stand at its start.
proof fn lemma_weave_first(kept: Seq<Seq<char>>, put: Seq<Seq<char>>, k: Seq<char>, p: Seq<char>)
    requires
        kept.len() == put.len(),
    ensures
        weave(seq![k] + kept, seq![p] + put) == k + p + weave(kept, put),
    decreases kept.len(),
{
    let all_kept = seq![k] + kept;
    let all_put = seq![p] + put;
    if kept.len() == 0 {
        assert(all_kept.drop_last() =~= Seq::empty());
        assert(weave(all_kept.drop_last(), all_put.drop_last()) =~= Seq::empty());
        assert(weave(all_kept, all_put) =~= k + p + weave(kept, put));
    } else {
        lemma_weave_first(kept.drop_last(), put.drop_last(), k, p);
        assert(all_kept.drop_last() =~= seq![k] + kept.drop_last());
        assert(all_put.drop_last() =~= seq![p] + put.drop_last());
        assert(weave(all_kept, all_put) =~= k + p + weave(kept, put));
    }
}

/// The number of occurrences that [`replace_all`] replaces.
pub open spec fn occurrences(s: Seq<char>, p: Seq<char>) -> nat
    decreases s.len(),
{
    match first_occurrence(s, p, 0) {
        Some(i) if 0 <= i && 0 < p.len() && i + p.len() <= s.len() => 1 + occurrences(
            s.skip(i + p.len()),
            p,
        ),
        _ => 0,
    }
}

/// Replacing a text keeps everything between its occurrences.
pub proof fn replacing_keeps_the_rest(s: Seq<char>, p: Seq<char>, r: Seq<char>)
    ensures
        rewrites(
            s,
            replace_all(s, p, r),
            Seq::new(occurrences(s, p), |i: int| p),
            Seq::new(occurrences(s, p), |i: int| r),
        ),
    decreases s.len(),
{
    let n = occurrences(s, p);
    let olds = Seq::new(n, |i: int| p);
    let news = Seq::new(n, |i: int| r);
    let result = replace_all(s, p, r);
    lemma_first_occurrence(s, p, 0);
    if n == 0 {
        let none = Seq::<Seq<char>>::empty();
        assert(weave(none, olds) + s =~= s);
        assert(weave(none, news) + s =~= s);
        assert(is_rewrite(s, result, olds, news, none, s));
    } else {
        let i = first_occurrence(s, p, 0)->0;
        let rest = s.skip(i + p.len());
        replacing_keeps_the_rest(rest, p, r);
        let rest_olds = Seq::new((n - 1) as nat, |i: int| p);
        let rest_news = Seq::new((n - 1) as nat, |i: int| r);
        let (kept, tail) = choose|kept: Seq<Seq<char>>, tail: Seq<char>|
            is_rewrite(rest, replace_all(rest, p, r), rest_olds, rest_news, kept, tail);
        let all_kept = seq![s.take(i)] + kept;
        lemma_weave_first(kept, rest_olds, s.take(i), p);
        lemma_weave_first(kept, rest_news, s.take(i), r);
        assert(olds =~= seq![p] + rest_olds);
        assert(news =~= seq![r] + rest_news);
        assert(s =~= s.take(i) + p + rest) by {
            assert(s.subrange(i, i + p.len()) == p);
        }
        assert(weave(all_kept, olds) + tail =~= s.take(i) + p + (weave(kept, rest_olds) + tail));
        assert(weave(all_kept, news) + tail =~= s.take(i) + r + (weave(kept, rest_news) + tail));
        assert(is_rewrite(s, result, olds, news, all_kept, tail));
    }
}

} // verus!
