//! Plain operations on text, stated over sequences of characters.
//!
//! Each executable function here comes with a spec function that says what
//! it computes; the puzzle solvers state their own contracts over those.

use vstd::prelude::*;
use vstd::slice::slice_subrange;
use vstd::std_specs::iter::IteratorSpec;

verus! {

/// Whether `c` is white space: the code points with the Unicode property
/// `White_Space`.
pub open spec fn is_space(c: char) -> bool {
    let n = c as int;
    ||| 0x09 <= n <= 0x0D
    ||| n == 0x20
    ||| n == 0x85
    ||| n == 0xA0
    ||| n == 0x1680
    ||| 0x2000 <= n <= 0x200A
    ||| n == 0x2028
    ||| n == 0x2029
    ||| n == 0x202F
    ||| n == 0x205F
    ||| n == 0x3000
}

/// `s` without the white space at its start.
pub open spec fn trimmed_start(s: Seq<char>) -> Seq<char>
    decreases s.len(),
{
    if s.len() > 0 && is_space(s[0]) {
        trimmed_start(s.drop_first())
    } else {
        s
    }
}

/// `s` without the white space at its end.
pub open spec fn trimmed_end(s: Seq<char>) -> Seq<char>
    decreases s.len(),
{
    if s.len() > 0 && is_space(s.last()) {
        trimmed_end(s.drop_last())
    } else {
        s
    }
}

/// `s` without the white space at either end.
pub open spec fn trimmed(s: Seq<char>) -> Seq<char> {
    trimmed_end(trimmed_start(s))
}

/// Whether `s` holds white space only.
pub open spec fn is_blank(s: Seq<char>) -> bool {
    forall|i: int| 0 <= i < s.len() ==> is_space(#[trigger] s[i])
}

/// Whether a line is not empty.
pub open spec fn is_filled() -> spec_fn(Seq<char>) -> bool {
    |l: Seq<char>| l.len() > 0
}

/// Whether a line holds more than white space.
pub open spec fn is_inked() -> spec_fn(Seq<char>) -> bool {
    |l: Seq<char>| !is_blank(l)
}

/// The pieces of `s` between occurrences of `sep`. There is always one piece
/// more than there are separators, so a piece may be empty.
pub open spec fn split_on(s: Seq<char>, sep: char) -> Seq<Seq<char>>
    decreases s.len(),
{
    if s.len() == 0 {
        seq![Seq::<char>::empty()]
    } else {
        let before = split_on(s.drop_last(), sep);
        if s.last() == sep {
            before.push(Seq::<char>::empty())
        } else {
            before.drop_last().push(before.last().push(s.last()))
        }
    }
}

/// The pieces put together again, with `sep` between each two of them.
pub open spec fn joined(pieces: Seq<Seq<char>>, sep: char) -> Seq<char>
    decreases pieces.len(),
{
    if pieces.len() == 0 {
        Seq::<char>::empty()
    } else if pieces.len() == 1 {
        pieces[0]
    } else {
        joined(pieces.drop_last(), sep).push(sep) + pieces.last()
    }
}

/// `s` without one carriage return at its end, if it has one.
pub open spec fn without_cr(s: Seq<char>) -> Seq<char> {
    if s.len() > 0 && s.last() == '\r' {
        s.drop_last()
    } else {
        s
    }
}

/// The lines of `s`. A line ends at a line feed, or at a carriage return
/// directly followed by a line feed; neither belongs to the line. What
/// follows the last line feed is a line of its own unless it is empty.
pub open spec fn lines_of(s: Seq<char>) -> Seq<Seq<char>> {
    let pieces = split_on(s, '\n');
    let ended = pieces.drop_last().map_values(|l: Seq<char>| without_cr(l));
    if pieces.last().len() == 0 {
        ended
    } else {
        ended.push(pieces.last())
    }
}

/// The words of `s`: its longest runs of characters that are not white space.
pub open spec fn words_of(s: Seq<char>) -> Seq<Seq<char>>
    decreases s.len(),
{
    if s.len() == 0 {
        Seq::<Seq<char>>::empty()
    } else {
        let before = words_of(s.drop_last());
        if is_space(s.last()) {
            before
        } else if s.len() >= 2 && !is_space(s[s.len() - 2]) {
            before.drop_last().push(before.last().push(s.last()))
        } else {
            before.push(seq![s.last()])
        }
    }
}

/// Whether `i` is where `sep` first occurs in `s`.
pub open spec fn first_at(s: Seq<char>, sep: char, i: int) -> bool {
    &&& 0 <= i < s.len()
    &&& s[i] == sep
    &&& forall|j: int| 0 <= j < i ==> #[trigger] s[j] != sep
}

/// What stands before and what stands behind the first `sep` in `s`, if
/// there is one.
pub open spec fn split_once_on(s: Seq<char>, sep: char) -> Option<(Seq<char>, Seq<char>)> {
    if exists|i: int| first_at(s, sep, i) {
        let i = choose|i: int| first_at(s, sep, i);
        Some((s.take(i), s.skip(i + 1)))
    } else {
        None
    }
}

/// What the items hold, each of them being there.
pub open spec fn present<T>(items: Seq<Option<T>>) -> Seq<T> {
    items.map_values(|item: Option<T>| item->0)
}

/// The items, if every one of them is there.
pub open spec fn collected<T>(items: Seq<Option<T>>) -> Option<Seq<T>> {
    if forall|i: int| 0 <= i < items.len() ==> (#[trigger] items[i]) is Some {
        Some(present(items))
    } else {
        None
    }
}

/// What each slice of `v` holds.
pub open spec fn views(v: Seq<&[char]>) -> Seq<Seq<char>> {
    v.map_values(|x: &[char]| x@)
}

/// The characters of `s`, one by one.
pub fn chars_of(s: &str) -> (v: Vec<char>)
    ensures
        v@ == s@,
{
    broadcast use vstd::string::group_string_axioms;

    let mut v: Vec<char> = Vec::new();
    let mut it = s.chars();
    loop
        invariant
            it.obeys_prophetic_iter_laws(),
            v@ + it.remaining() == s@,
            it.decrease() is Some,
        decreases it.decrease()->0,
    {
        match it.next() {
            Some(c) => {
                v.push(c);
                assert(v@ + it.remaining() =~= s@);
            },
            None => {
                assert(v@ =~= s@);
                return v;
            },
        }
    }
}

/// Tells whether `c` is white space.
pub fn space(c: char) -> (b: bool)
    ensures
        b == is_space(c),
{
    let n: u32 = c as u32;
    (0x09 <= n && n <= 0x0D) || n == 0x20 || n == 0x85 || n == 0xA0 || n == 0x1680 || (0x2000 <= n
        && n <= 0x200A) || n == 0x2028 || n == 0x2029 || n == 0x202F || n == 0x205F || n == 0x3000
}

/// Tells whether `s` holds white space only.
pub fn blank(s: &[char]) -> (b: bool)
    ensures
        b == is_blank(s@),
{
    let mut i: usize = 0;
    while i < s.len()
        invariant
            i <= s.len(),
            forall|j: int| 0 <= j < i ==> is_space(#[trigger] s@[j]),
        decreases s.len() - i,
    {
        if !space(s[i]) {
            return false;
        }
        i += 1;
    }
    true
}

/// The part of `s` between its leading and its trailing white space.
pub fn trim<'a>(s: &'a [char]) -> (r: &'a [char])
    ensures
        r@ == trimmed(s@),
{
    let n: usize = s.len();
    let mut a: usize = 0;
    assert(s@.skip(0) =~= s@);
    while a < n && space(s[a])
        invariant
            a <= n == s@.len(),
            trimmed_start(s@) == trimmed_start(s@.skip(a as int)),
        decreases n - a,
    {
        assert(s@.skip(a as int).drop_first() =~= s@.skip(a + 1));
        a += 1;
    }
    let mut b: usize = n;
    assert(s@.skip(a as int) =~= s@.subrange(a as int, b as int));
    while b > a && space(s[b - 1])
        invariant
            a <= b <= n == s@.len(),
            trimmed(s@) == trimmed_end(s@.subrange(a as int, b as int)),
        decreases b,
    {
        assert(s@.subrange(a as int, b as int).drop_last() =~= s@.subrange(a as int, b - 1));
        b -= 1;
    }
    slice_subrange(s, a, b)
}

/// Cuts `s` at each occurrence of `sep`.
pub fn split<'a>(s: &'a [char], sep: char) -> (v: Vec<&'a [char]>)
    ensures
        views(v@) == split_on(s@, sep),
{
    let mut v: Vec<&'a [char]> = Vec::new();
    let mut start: usize = 0;
    let mut i: usize = 0;
    assert(s@.take(0) =~= Seq::<char>::empty());
    assert(views(v@).push(s@.subrange(0, 0)) =~~= seq![Seq::<char>::empty()]);
    while i < s.len()
        invariant
            start <= i <= s.len(),
            views(v@).push(s@.subrange(start as int, i as int)) == split_on(s@.take(i as int), sep),
        decreases s.len() - i,
    {
        let ghost before = split_on(s@.take(i as int), sep);
        assert(s@.take(i + 1).drop_last() =~= s@.take(i as int));
        assert(s@.subrange(start as int, i as int).push(s@[i as int]) =~= s@.subrange(
            start as int,
            i + 1,
        ));
        if s[i] == sep {
            v.push(slice_subrange(s, start, i));
            start = i + 1;
            assert(views(v@).push(s@.subrange(start as int, i + 1)) =~~= before.push(
                Seq::<char>::empty(),
            ));
        } else {
            assert(views(v@).push(s@.subrange(start as int, i + 1)) =~~= before.drop_last().push(
                before.last().push(s@[i as int]),
            ));
        }
        i += 1;
    }
    assert(s@.take(i as int) =~= s@);
    v.push(slice_subrange(s, start, i));
    assert(views(v@) =~~= split_on(s@, sep));
    v
}

/// Cuts `s` into its lines.
pub fn lines<'a>(s: &'a [char]) -> (v: Vec<&'a [char]>)
    ensures
        views(v@) == lines_of(s@),
{
    let pieces = split(s, '\n');
    let ghost ended = views(pieces@).drop_last().map_values(|l: Seq<char>| without_cr(l));
    assert(pieces.len() >= 1) by {
        lemma_split_on_joined(s@, '\n');
    }
    let mut v: Vec<&'a [char]> = Vec::new();
    let last: usize = pieces.len() - 1;
    let mut i: usize = 0;
    while i < last
        invariant
            i <= last == pieces.len() - 1,
            ended == views(pieces@).drop_last().map_values(|l: Seq<char>| without_cr(l)),
            views(v@) == ended.take(i as int),
        decreases last - i,
    {
        let piece = pieces[i];
        let n: usize = piece.len();
        let ghost done = views(v@);
        if n > 0 && piece[n - 1] == '\r' {
            v.push(slice_subrange(piece, 0, n - 1));
            assert(piece@.subrange(0, n - 1) =~= piece@.drop_last());
        } else {
            v.push(piece);
        }
        assert(views(v@) =~~= done.push(without_cr(piece@)));
        assert(ended[i as int] == without_cr(views(pieces@)[i as int]));
        assert(ended.take(i + 1) =~~= ended.take(i as int).push(ended[i as int]));
        i += 1;
    }
    assert(ended.take(last as int) =~= ended);
    if pieces[last].len() > 0 {
        v.push(pieces[last]);
        assert(views(v@) =~~= ended.push(views(pieces@).last()));
    }
    v
}

/// Cuts `s` into its words.
pub fn words<'a>(s: &'a [char]) -> (v: Vec<&'a [char]>)
    ensures
        views(v@) == words_of(s@),
{
    let mut v: Vec<&'a [char]> = Vec::new();
    let mut start: usize = 0;
    let mut inside: bool = false;
    let mut i: usize = 0;
    assert(s@.take(0) =~= Seq::<char>::empty());
    assert(views(v@) =~~= Seq::<Seq<char>>::empty());
    while i < s.len()
        invariant
            start <= i <= s.len(),
            inside ==> start < i && !is_space(s@[i - 1]) && views(v@).push(
                s@.subrange(start as int, i as int),
            ) == words_of(s@.take(i as int)),
            !inside ==> (i == 0 || is_space(s@[i - 1])) && views(v@) == words_of(
                s@.take(i as int),
            ),
        decreases s.len() - i,
    {
        let ghost before = words_of(s@.take(i as int));
        assert(s@.take(i + 1).drop_last() =~= s@.take(i as int));
        assert(s@.subrange(start as int, i as int).push(s@[i as int]) =~= s@.subrange(
            start as int,
            i + 1,
        ));
        assert(seq![s@[i as int]] =~= s@.subrange(i as int, i + 1));
        if space(s[i]) {
            if inside {
                v.push(slice_subrange(s, start, i));
                inside = false;
                assert(views(v@) =~~= before);
            }
        } else if inside {
            assert(views(v@).push(s@.subrange(start as int, i + 1)) =~~= before.drop_last().push(
                before.last().push(s@[i as int]),
            ));
        } else {
            start = i;
            inside = true;
            assert(views(v@).push(s@.subrange(start as int, i + 1)) =~~= before.push(
                seq![s@[i as int]],
            ));
        }
        i += 1;
    }
    assert(s@.take(i as int) =~= s@);
    if inside {
        v.push(slice_subrange(s, start, i));
        assert(views(v@) =~~= words_of(s@));
    }
    v
}

/// Cuts `s` at the first occurrence of `sep`, which belongs to neither part.
pub fn split_once<'a>(s: &'a [char], sep: char) -> (r: Option<(&'a [char], &'a [char])>)
    ensures
        match r {
            Some((before, behind)) => split_once_on(s@, sep) == Some((before@, behind@)),
            None => split_once_on(s@, sep) is None,
        },
{
    let mut i: usize = 0;
    while i < s.len()
        invariant
            i <= s.len(),
            forall|j: int| 0 <= j < i ==> #[trigger] s@[j] != sep,
        decreases s.len() - i,
    {
        if s[i] == sep {
            assert(first_at(s@, sep, i as int));
            let ghost chosen = choose|k: int| first_at(s@, sep, k);
            assert(chosen == i);
            assert(s@.skip(i + 1) =~= s@.subrange(i + 1, s@.len() as int));
            return Some((slice_subrange(s, 0, i), slice_subrange(s, i + 1, s.len())));
        }
        i += 1;
    }
    None
}

/// The lines that are not empty.
pub fn keep_filled<'a>(ls: &[&'a [char]]) -> (kept: Vec<&'a [char]>)
    ensures
        views(kept@) == views(ls@).filter(is_filled()),
{
    let ghost all = views(ls@);
    let mut kept: Vec<&'a [char]> = Vec::new();
    let mut i: usize = 0;
    proof {
        reveal(Seq::filter);
        assert(all.take(0) =~= Seq::<Seq<char>>::empty());
        assert(views(kept@) =~~= all.take(0).filter(is_filled()));
    }
    while i < ls.len()
        invariant
            i <= ls.len(),
            all == views(ls@),
            views(kept@) == all.take(i as int).filter(is_filled()),
        decreases ls.len() - i,
    {
        let line = ls[i];
        proof {
            assert(all.take(i + 1) =~= all.take(i as int).push(line@));
            all.take(i as int).lemma_filter_push(line@, is_filled());
        }
        if line.len() > 0 {
            let ghost before = views(kept@);
            kept.push(line);
            assert(views(kept@) =~~= before.push(line@));
        }
        i += 1;
    }
    assert(all.take(i as int) =~= all);
    kept
}

/// The lines that hold more than white space.
pub fn keep_inked<'a>(ls: &[&'a [char]]) -> (kept: Vec<&'a [char]>)
    ensures
        views(kept@) == views(ls@).filter(is_inked()),
{
    let ghost all = views(ls@);
    let mut kept: Vec<&'a [char]> = Vec::new();
    let mut i: usize = 0;
    proof {
        reveal(Seq::filter);
        assert(all.take(0) =~= Seq::<Seq<char>>::empty());
        assert(views(kept@) =~~= all.take(0).filter(is_inked()));
    }
    while i < ls.len()
        invariant
            i <= ls.len(),
            all == views(ls@),
            views(kept@) == all.take(i as int).filter(is_inked()),
        decreases ls.len() - i,
    {
        let line = ls[i];
        proof {
            assert(all.take(i + 1) =~= all.take(i as int).push(line@));
            all.take(i as int).lemma_filter_push(line@, is_inked());
        }
        if !blank(line) {
            let ghost before = views(kept@);
            kept.push(line);
            assert(views(kept@) =~~= before.push(line@));
        }
        i += 1;
    }
    assert(all.take(i as int) =~= all);
    kept
}

/// What `trimmed_start` takes away is white space, and what it leaves does
/// not start with any. The result is how many characters it takes away.
pub proof fn lemma_trimmed_start(s: Seq<char>) -> (a: int)
    ensures
        0 <= a <= s.len(),
        trimmed_start(s) == s.skip(a),
        is_blank(s.take(a)),
        a < s.len() ==> !is_space(s[a]),
    decreases s.len(),
{
    if s.len() > 0 && is_space(s[0]) {
        let rest = s.drop_first();
        let a = lemma_trimmed_start(rest);
        assert(rest.skip(a) =~= s.skip(a + 1));
        assert forall|i: int| 0 <= i < a + 1 implies is_space(#[trigger] s.take(a + 1)[i]) by {
            if i > 0 {
                assert(s.take(a + 1)[i] == rest.take(a)[i - 1]);
            }
        }
        a + 1
    } else {
        assert(s.skip(0) =~= s);
        0
    }
}

/// What `trimmed_end` takes away is white space, and what it leaves does
/// not end in any. The result is how many characters it leaves.
pub proof fn lemma_trimmed_end(s: Seq<char>) -> (b: int)
    ensures
        0 <= b <= s.len(),
        trimmed_end(s) == s.take(b),
        is_blank(s.skip(b)),
        b > 0 ==> !is_space(s[b - 1]),
    decreases s.len(),
{
    if s.len() > 0 && is_space(s.last()) {
        let rest = s.drop_last();
        let b = lemma_trimmed_end(rest);
        assert(rest.take(b) =~= s.take(b));
        assert forall|i: int| 0 <= i < s.len() - b implies is_space(#[trigger] s.skip(b)[i]) by {
            if i < s.len() - b - 1 {
                assert(s.skip(b)[i] == rest.skip(b)[i]);
            }
        }
        b
    } else {
        assert(s.take(s.len() as int) =~= s);
        s.len() as int
    }
}

/// Trimming leaves the middle of the text: what stands before it and what
/// stands behind it is white space, and it neither starts nor ends with
/// any. The result is where the middle starts and where it ends.
pub proof fn lemma_trimmed(s: Seq<char>) -> (at: (int, int))
    ensures
        0 <= at.0 <= at.1 <= s.len(),
        trimmed(s) == s.subrange(at.0, at.1),
        is_blank(s.take(at.0)),
        is_blank(s.skip(at.1)),
        at.0 < at.1 ==> !is_space(s[at.0]) && !is_space(s[at.1 - 1]),
{
    let a = lemma_trimmed_start(s);
    let rest = s.skip(a);
    let b = lemma_trimmed_end(rest);
    assert(rest.take(b) =~= s.subrange(a, a + b));
    assert forall|i: int| 0 <= i < s.len() - (a + b) implies is_space(
        #[trigger] s.skip(a + b)[i],
    ) by {
        assert(s.skip(a + b)[i] == rest.skip(b)[i]);
    }
    if b > 0 {
        assert(rest[b - 1] == s[a + b - 1]);
    }
    (a, a + b)
}

/// No piece of `split_on` holds the separator, and the pieces with the
/// separator put between them again are the text.
pub proof fn lemma_split_on_joined(s: Seq<char>, sep: char)
    ensures
        split_on(s, sep).len() >= 1,
        forall|i: int, j: int|
            0 <= i < split_on(s, sep).len() && 0 <= j < split_on(s, sep)[i].len()
                ==> #[trigger] split_on(s, sep)[i][j] != sep,
        joined(split_on(s, sep), sep) == s,
    decreases s.len(),
{
    let pieces = split_on(s, sep);
    if s.len() == 0 {
        assert(joined(pieces, sep) =~= s);
    } else {
        let before = split_on(s.drop_last(), sep);
        lemma_split_on_joined(s.drop_last(), sep);
        if s.last() == sep {
            assert(pieces.drop_last() =~= before);
            assert(joined(pieces, sep) =~= s.drop_last().push(sep));
            assert(s.drop_last().push(sep) =~= s);
        } else {
            let grown = before.last().push(s.last());
            assert(pieces.last() == grown);
            assert(pieces.drop_last() =~= before.drop_last());
            if before.len() == 1 {
                assert(joined(pieces, sep) =~= s.drop_last().push(s.last()));
            } else {
                assert(joined(pieces, sep) =~= (joined(before.drop_last(), sep).push(sep)
                    + before.last()).push(s.last()));
            }
            assert(s.drop_last().push(s.last()) =~= s);
            assert forall|i: int, j: int|
                0 <= i < pieces.len() && 0 <= j < pieces[i].len() implies #[trigger] pieces[i][j]
                != sep by {
                if i < pieces.len() - 1 {
                    assert(pieces[i][j] == before[i][j]);
                } else if j < before.last().len() {
                    assert(pieces[i][j] == before[before.len() - 1][j]);
                }
            }
        }
    }
}

/// No line holds a line feed.
pub proof fn lemma_lines_of(s: Seq<char>)
    ensures
        forall|i: int, j: int|
            0 <= i < lines_of(s).len() && 0 <= j < lines_of(s)[i].len()
                ==> #[trigger] lines_of(s)[i][j] != '\n',
{
    let pieces = split_on(s, '\n');
    let all = lines_of(s);
    lemma_split_on_joined(s, '\n');
    assert forall|i: int, j: int| 0 <= i < all.len() && 0 <= j < all[i].len() implies #[trigger] all[i][j]
        != '\n' by {
        if i < pieces.len() - 1 {
            assert(all[i] == without_cr(pieces[i]));
            assert(all[i][j] == pieces[i][j]);
        } else {
            assert(all[i] == pieces[i]);
            assert(all[i][j] == pieces[i][j]);
        }
    }
}

/// No word is empty, and no word holds white space.
pub proof fn lemma_words_of(s: Seq<char>)
    ensures
        forall|i: int| 0 <= i < words_of(s).len() ==> (#[trigger] words_of(s)[i]).len() > 0,
        forall|i: int, j: int|
            0 <= i < words_of(s).len() && 0 <= j < words_of(s)[i].len() ==> !is_space(
                #[trigger] words_of(s)[i][j],
            ),
        s.len() > 0 && !is_space(s.last()) ==> words_of(s).len() > 0,
    decreases s.len(),
{
    if s.len() > 0 {
        let before = words_of(s.drop_last());
        let all = words_of(s);
        lemma_words_of(s.drop_last());
        if is_space(s.last()) {
        } else if s.len() >= 2 && !is_space(s[s.len() - 2]) {
            assert(s.drop_last().last() == s[s.len() - 2]);
            assert forall|i: int, j: int|
                0 <= i < all.len() && 0 <= j < all[i].len() implies !is_space(
                #[trigger] all[i][j],
            ) by {
                if i < all.len() - 1 {
                    assert(all[i][j] == before[i][j]);
                } else if j < before.last().len() {
                    assert(all[i][j] == before[before.len() - 1][j]);
                }
            }
            assert forall|i: int| 0 <= i < all.len() implies (#[trigger] all[i]).len() > 0 by {
                if i < all.len() - 1 {
                    assert(all[i] == before[i]);
                }
            }
        } else {
            assert forall|i: int, j: int|
                0 <= i < all.len() && 0 <= j < all[i].len() implies !is_space(
                #[trigger] all[i][j],
            ) by {
                if i < all.len() - 1 {
                    assert(all[i][j] == before[i][j]);
                }
            }
            assert forall|i: int| 0 <= i < all.len() implies (#[trigger] all[i]).len() > 0 by {
                if i < all.len() - 1 {
                    assert(all[i] == before[i]);
                }
            }
        }
    }
}

/// Items that are all there are collected as they stand.
pub proof fn lemma_collected<T>(items: Seq<Option<T>>, values: Seq<T>)
    requires
        items.len() == values.len(),
        forall|i: int| 0 <= i < items.len() ==> #[trigger] items[i] == Some(values[i]),
    ensures
        collected(items) == Some(values),
{
    assert(present(items) =~= values);
}

} // verus!
