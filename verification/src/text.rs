//! Operations on text, each stated over the characters of the text.

use vstd::prelude::*;
use vstd::string::StrSliceExecFns;

verus! {

/// The characters of `s`, in order.
pub fn chars_of(s: &str) -> (v: Vec<char>)
    ensures
        v@ == s@,
{
    let mut v: Vec<char> = Vec::new();
    for c in it: s.chars()
        invariant
            v@ == it.seq().take(it.index() as int),
            it.seq() == s@,
    {
        v.push(c);
        assert(it.seq().take(it.index() as int + 1) =~= it.seq().take(it.index() as int).push(c));
    }
    assert(s@.take(s@.len() as int) =~= s@);
    v
}

/// Whether `s` and `t` hold the same characters.
pub fn same_text(s: &str, t: &str) -> (r: bool)
    ensures
        r == (s@ == t@),
{
    let a = chars_of(s);
    let b = chars_of(t);
    if a.len() != b.len() {
        return false;
    }
    for i in 0..a.len()
        invariant
            a@ == s@,
            b@ == t@,
            a.len() == b.len(),
            forall|j: int| 0 <= j < i ==> a@[j] == b@[j],
    {
        if a[i] != b[i] {
            return false;
        }
    }
    assert(s@ =~= t@);
    true
}

/// Whether `c` occurs in `s`.
pub fn contains_char(s: &str, c: char) -> (r: bool)
    ensures
        r == s@.contains(c),
{
    let v = chars_of(s);
    for i in 0..v.len()
        invariant
            v@ == s@,
            forall|j: int| 0 <= j < i ==> v@[j] != c,
    {
        if v[i] == c {
            return true;
        }
    }
    false
}

/// Whether `s` begins with the characters `prefix`.
pub fn starts_with(s: &str, prefix: &Vec<char>) -> (r: bool)
    ensures
        r == prefix@.is_prefix_of(s@),
{
    let a = chars_of(s);
    if a.len() < prefix.len() {
        return false;
    }
    for i in 0..prefix.len()
        invariant
            a@ == s@,
            prefix.len() <= a.len(),
            forall|j: int| 0 <= j < i ==> a@[j] == prefix@[j],
    {
        if a[i] != prefix[i] {
            return false;
        }
    }
    assert(prefix@ =~= s@.subrange(0, prefix@.len() as int));
    true
}

// ---------------------------------------------------------------------------
// Splitting
// ---------------------------------------------------------------------------

/// The pieces of `s` between occurrences of `sep`: one more piece than there
/// are separators, and a piece is empty where two separators touch.
pub open spec fn split<T>(s: Seq<T>, sep: T) -> Seq<Seq<T>>
    decreases s.len(),
{
    if s.len() == 0 {
        seq![Seq::empty()]
    } else {
        let init = split(s.drop_last(), sep);
        if s.last() == sep {
            init.push(Seq::empty())
        } else {
            init.drop_last().push(init.last().push(s.last()))
        }
    }
}

/// There is always at least one piece.
pub proof fn lemma_split_nonempty<T>(s: Seq<T>, sep: T)
    ensures
        split(s, sep).len() > 0,
    decreases s.len(),
{
    if s.len() > 0 {
        lemma_split_nonempty(s.drop_last(), sep);
    }
}

/// The pieces of `s` between occurrences of `sep`.
pub fn split_text<'a>(s: &'a str, sep: char) -> (pieces: Vec<&'a str>)
    ensures
        pieces.deep_view() == split(s@, sep),
{
    let v = chars_of(s);
    let mut pieces: Vec<&'a str> = Vec::new();
    let mut start: usize = 0;
    let mut i: usize = 0;
    assert(s@.subrange(0, 0) =~= Seq::empty());
    assert(s@.take(0) =~= Seq::empty());
    while i < v.len()
        invariant
            v@ == s@,
            start <= i <= v.len(),
            split(s@.take(i as int), sep) == pieces.deep_view().push(
                s@.subrange(start as int, i as int),
            ),
        decreases v.len() - i,
    {
        let ghost before = pieces.deep_view();
        let ghost piece = s@.subrange(start as int, i as int);
        assert(s@.take(i + 1).drop_last() =~= s@.take(i as int));
        if v[i] == sep {
            pieces.push(s.substring_char(start, i));
            assert(pieces.deep_view() =~= before.push(piece));
            start = i + 1;
            assert(s@.subrange(i + 1, i + 1) =~= Seq::empty());
        } else {
            assert(before.push(piece).drop_last() =~= before);
            assert(s@.subrange(start as int, i + 1) =~= piece.push(s@[i as int]));
        }
        i = i + 1;
    }
    let ghost before = pieces.deep_view();
    pieces.push(s.substring_char(start, i));
    assert(pieces.deep_view() =~= before.push(s@.subrange(start as int, i as int)));
    assert(s@.take(i as int) =~= s@);
    pieces
}

// ---------------------------------------------------------------------------
// Trimming
// ---------------------------------------------------------------------------

/// The characters with the Unicode property `White_Space`.
pub open spec fn is_white_space(c: char) -> bool {
    ||| '\u{9}' <= c <= '\u{d}'
    ||| c == '\u{20}'
    ||| c == '\u{85}'
    ||| c == '\u{a0}'
    ||| c == '\u{1680}'
    ||| '\u{2000}' <= c <= '\u{200a}'
    ||| c == '\u{2028}'
    ||| c == '\u{2029}'
    ||| c == '\u{202f}'
    ||| c == '\u{205f}'
    ||| c == '\u{3000}'
}

/// Whether `c` has the Unicode property `White_Space`.
pub fn white_space(c: char) -> (r: bool)
    ensures
        r == is_white_space(c),
{
    ('\u{9}' <= c && c <= '\u{d}') || c == '\u{20}' || c == '\u{85}' || c == '\u{a0}' || c
        == '\u{1680}' || ('\u{2000}' <= c && c <= '\u{200a}') || c == '\u{2028}' || c == '\u{2029}'
        || c == '\u{202f}' || c == '\u{205f}' || c == '\u{3000}'
}

/// `s` without its longest prefix of characters that satisfy `drop`.
pub open spec fn drop_front(s: Seq<char>, drop: spec_fn(char) -> bool) -> Seq<char>
    decreases s.len(),
{
    if s.len() > 0 && drop(s.first()) {
        drop_front(s.drop_first(), drop)
    } else {
        s
    }
}

/// `s` without its longest suffix of characters that satisfy `drop`.
pub open spec fn drop_back(s: Seq<char>, drop: spec_fn(char) -> bool) -> Seq<char>
    decreases s.len(),
{
    if s.len() > 0 && drop(s.last()) {
        drop_back(s.drop_last(), drop)
    } else {
        s
    }
}

/// The predicate "is white space".
pub open spec fn white() -> spec_fn(char) -> bool {
    |c: char| is_white_space(c)
}

/// The predicate "is the character `quote`".
pub open spec fn only(quote: char) -> spec_fn(char) -> bool {
    |c: char| c == quote
}

/// `s` without leading and trailing white space.
pub open spec fn trimmed(s: Seq<char>) -> Seq<char> {
    drop_back(drop_front(s, white()), white())
}

/// `s` without leading and trailing occurrences of `quote`.
pub open spec fn unquoted(s: Seq<char>, quote: char) -> Seq<char> {
    drop_back(drop_front(s, only(quote)), only(quote))
}

/// Whether `s` holds only characters that satisfy `pred`.
pub open spec fn consists_of(s: Seq<char>, pred: spec_fn(char) -> bool) -> bool {
    forall|i: int| 0 <= i < s.len() ==> pred(#[trigger] s[i])
}

/// What is dropped in front is all that satisfies the predicate there, and no
/// more.
pub proof fn front_is_dropped(lead: Seq<char>, rest: Seq<char>, drop: spec_fn(char) -> bool)
    requires
        consists_of(lead, drop),
        rest.len() > 0 ==> !drop(rest[0]),
    ensures
        drop_front(lead + rest, drop) == rest,
    decreases lead.len(),
{
    let s = lead + rest;
    if lead.len() == 0 {
        assert(s =~= rest);
    } else {
        assert(s.first() == lead[0]);
        assert(s.drop_first() =~= lead.drop_first() + rest);
        front_is_dropped(lead.drop_first(), rest, drop);
    }
}

/// What is dropped at the back is all that satisfies the predicate there, and no
/// more.
pub proof fn back_is_dropped(rest: Seq<char>, trail: Seq<char>, drop: spec_fn(char) -> bool)
    requires
        consists_of(trail, drop),
        rest.len() > 0 ==> !drop(rest.last()),
    ensures
        drop_back(rest + trail, drop) == rest,
    decreases trail.len(),
{
    let s = rest + trail;
    if trail.len() == 0 {
        assert(s =~= rest);
    } else {
        assert(s.last() == trail.last());
        assert(s.drop_last() =~= rest + trail.drop_last());
        back_is_dropped(rest, trail.drop_last(), drop);
    }
}

/// Trimming takes away the white space round a text, and nothing else.
pub proof fn white_space_is_trimmed(lead: Seq<char>, core: Seq<char>, trail: Seq<char>)
    requires
        consists_of(lead, white()),
        consists_of(trail, white()),
        core.len() > 0 ==> !is_white_space(core[0]) && !is_white_space(core.last()),
    ensures
        trimmed(lead + core + trail) == core,
{
    if core.len() > 0 {
        assert(lead + core + trail =~= lead + (core + trail));
        front_is_dropped(lead, core + trail, white());
        back_is_dropped(core, trail, white());
    } else {
        assert(lead + core + trail =~= (lead + trail) + core);
        front_is_dropped(lead + trail, core, white());
    }
}

/// Unquoting takes away the quotes round a text, and nothing else.
pub proof fn quotes_are_taken_away(
    lead: Seq<char>,
    core: Seq<char>,
    trail: Seq<char>,
    quote: char,
)
    requires
        consists_of(lead, only(quote)),
        consists_of(trail, only(quote)),
        core.len() > 0 ==> core[0] != quote && core.last() != quote,
    ensures
        unquoted(lead + core + trail, quote) == core,
{
    if core.len() > 0 {
        assert(lead + core + trail =~= lead + (core + trail));
        front_is_dropped(lead, core + trail, only(quote));
        back_is_dropped(core, trail, only(quote));
    } else {
        assert(lead + core + trail =~= (lead + trail) + core);
        front_is_dropped(lead + trail, core, only(quote));
    }
}

/// `s` without leading white space.
pub fn trim_start<'a>(s: &'a str) -> (r: &'a str)
    ensures
        r@ == drop_front(s@, white()),
{
    let v = chars_of(s);
    let mut i: usize = 0;
    assert(s@.skip(0) =~= s@);
    while i < v.len() && white_space(v[i])
        invariant
            v@ == s@,
            i <= v.len(),
            drop_front(s@.skip(i as int), white()) == drop_front(s@, white()),
        decreases v.len() - i,
    {
        assert(s@.skip(i as int).drop_first() =~= s@.skip(i + 1));
        i = i + 1;
    }
    s.substring_char(i, v.len())
}

/// `s` without leading and trailing white space.
pub fn trim<'a>(s: &'a str) -> (r: &'a str)
    ensures
        r@ == trimmed(s@),
{
    let front = trim_start(s);
    let v = chars_of(front);
    let mut i: usize = v.len();
    assert(front@.take(i as int) =~= front@);
    while i > 0 && white_space(v[i - 1])
        invariant
            v@ == front@,
            i <= v.len(),
            drop_back(front@.take(i as int), white()) == drop_back(front@, white()),
        decreases i,
    {
        assert(front@.take(i as int).drop_last() =~= front@.take(i - 1));
        i = i - 1;
    }
    front.substring_char(0, i)
}

/// `s` without leading and trailing occurrences of `quote`.
pub fn trim_matches<'a>(s: &'a str, quote: char) -> (r: &'a str)
    ensures
        r@ == unquoted(s@, quote),
{
    let v = chars_of(s);
    let mut i: usize = 0;
    assert(s@.skip(0) =~= s@);
    while i < v.len() && v[i] == quote
        invariant
            v@ == s@,
            i <= v.len(),
            drop_front(s@.skip(i as int), only(quote)) == drop_front(s@, only(quote)),
        decreases v.len() - i,
    {
        assert(s@.skip(i as int).drop_first() =~= s@.skip(i + 1));
        i = i + 1;
    }
    let ghost front = s@.skip(i as int);
    let mut j: usize = v.len();
    assert(s@.subrange(i as int, j as int) =~= front);
    while j > i && v[j - 1] == quote
        invariant
            v@ == s@,
            i <= j <= v.len(),
            drop_back(s@.subrange(i as int, j as int), only(quote)) == drop_back(
                front,
                only(quote),
            ),
        decreases j,
    {
        assert(s@.subrange(i as int, j as int).drop_last() =~= s@.subrange(i as int, j - 1));
        j = j - 1;
    }
    s.substring_char(i, j)
}

// ---------------------------------------------------------------------------
// ASCII case
// ---------------------------------------------------------------------------

/// `c`, with an upper-case ASCII letter replaced by its lower-case form.
pub open spec fn fold_case(c: char) -> char {
    if 'A' <= c <= 'Z' {
        ((c as u8) + 32) as u8 as char
    } else {
        c
    }
}

/// Two characters are the same but for the case of ASCII letters exactly if they
/// are equal, or one is an ASCII letter and the other its form in the other case.
pub proof fn case_is_that_of_ascii_letters(a: char, b: char)
    ensures
        fold_case(a) == fold_case(b) <==> {
            ||| a == b
            ||| 'A' <= a <= 'Z' && b as int == a as int + 32
            ||| 'A' <= b <= 'Z' && a as int == b as int + 32
        },
{
}

/// `s`, with upper-case ASCII letters replaced by their lower-case forms.
pub open spec fn folded(s: Seq<char>) -> Seq<char> {
    s.map_values(|c: char| fold_case(c))
}

/// Whether `s` begins with `prefix`, without regard to the case of ASCII letters.
pub open spec fn is_folded_prefix(prefix: Seq<char>, s: Seq<char>) -> bool {
    folded(prefix).is_prefix_of(folded(s))
}

/// `c`, with an upper-case ASCII letter replaced by its lower-case form.
pub fn to_lower(c: char) -> (r: char)
    ensures
        r == fold_case(c),
{
    if 'A' <= c && c <= 'Z' {
        (c as u8 + 32) as char
    } else {
        c
    }
}

/// Whether `s` begins with `prefix`, without regard to the case of ASCII letters.
pub fn starts_with_ignoring_case(s: &str, prefix: &str) -> (r: bool)
    ensures
        r == is_folded_prefix(prefix@, s@),
{
    let a = chars_of(s);
    let b = chars_of(prefix);
    if a.len() < b.len() {
        return false;
    }
    for i in 0..b.len()
        invariant
            a@ == s@,
            b@ == prefix@,
            b.len() <= a.len(),
            forall|j: int| 0 <= j < i ==> fold_case(a@[j]) == fold_case(b@[j]),
    {
        if to_lower(a[i]) != to_lower(b[i]) {
            assert(folded(s@)[i as int] != folded(prefix@)[i as int]);
            return false;
        }
    }
    assert(folded(prefix@) =~= folded(s@).subrange(0, prefix@.len() as int));
    true
}

/// Whether `s` and `t` are equal, without regard to the case of ASCII letters.
pub fn same_text_ignoring_case(s: &str, t: &str) -> (r: bool)
    ensures
        r == (folded(s@) == folded(t@)),
{
    let same_len = s.unicode_len() == t.unicode_len();
    let prefix = starts_with_ignoring_case(s, t);
    assert(same_len && prefix ==> folded(s@) =~= folded(t@));
    assert(folded(s@) == folded(t@) ==> folded(s@).len() == folded(t@).len());
    assert(folded(t@).subrange(0, t@.len() as int) =~= folded(t@));
    same_len && prefix
}

/// Folding the case does not move the separators, where they have no case.
pub proof fn lemma_split_folded(s: Seq<char>, sep: char)
    requires
        forall|c: char| #[trigger] fold_case(c) == sep <==> c == sep,
    ensures
        split(folded(s), sep).len() == split(s, sep).len(),
        forall|i: int|
            0 <= i < split(s, sep).len() ==> #[trigger] split(folded(s), sep)[i] == folded(
                split(s, sep)[i],
            ),
    decreases s.len(),
{
    if s.len() == 0 {
        assert(folded(s) =~= Seq::empty());
        assert(folded(Seq::empty()) =~= Seq::empty());
    } else {
        let init = s.drop_last();
        lemma_split_folded(init, sep);
        lemma_split_nonempty(init, sep);
        assert(folded(s).drop_last() =~= folded(init));
        assert(folded(s).last() == fold_case(s.last()));
        let pieces = split(init, sep);
        let folded_pieces = split(folded(init), sep);
        assert forall|i: int| 0 <= i < split(s, sep).len() implies #[trigger] split(
            folded(s),
            sep,
        )[i] == folded(split(s, sep)[i]) by {
            if s.last() == sep {
                if i < pieces.len() {
                    assert(folded_pieces[i] == folded(pieces[i]));
                } else {
                    assert(folded(Seq::empty()) =~= Seq::empty());
                }
            } else {
                if i < pieces.len() - 1 {
                    assert(folded_pieces[i] == folded(pieces[i]));
                } else {
                    assert(folded_pieces[i] == folded(pieces[i]));
                    assert(folded(pieces.last().push(s.last())) =~= folded(pieces.last()).push(
                        fold_case(s.last()),
                    ));
                }
            }
        }
    }
}

/// A text without a separator is one piece.
pub proof fn unsplit_text_is_one_piece<T>(s: Seq<T>, sep: T)
    requires
        !s.contains(sep),
    ensures
        split(s, sep) == seq![s],
    decreases s.len(),
{
    if s.len() > 0 {
        let init = s.drop_last();
        assert forall|c: T| init.contains(c) implies s.contains(c) by {
            let k = choose|k: int| 0 <= k < init.len() && init[k] == c;
            assert(s[k] == c);
        }
        assert(s.contains(s.last()));
        unsplit_text_is_one_piece(init, sep);
        assert(init.push(s.last()) =~= s);
    } else {
        assert(s =~= Seq::empty());
    }
    assert(split(s, sep) =~= seq![s]);
}

/// The pieces of a text that has a separator are what stands before the first
/// one, and the pieces of what stands behind it.
pub proof fn text_splits_at_first_separator<T>(head: Seq<T>, sep: T, tail: Seq<T>)
    requires
        !head.contains(sep),
    ensures
        split(head.push(sep) + tail, sep) == seq![head] + split(tail, sep),
    decreases tail.len(),
{
    let s = head.push(sep) + tail;
    if tail.len() == 0 {
        assert(s =~= head.push(sep));
        assert(s.drop_last() =~= head);
        unsplit_text_is_one_piece(head, sep);
        assert(tail =~= Seq::empty());
        assert(split(s, sep) =~= seq![head] + split(tail, sep));
    } else {
        let init = tail.drop_last();
        assert(s.drop_last() =~= head.push(sep) + init);
        text_splits_at_first_separator(head, sep, init);
        lemma_split_nonempty(init, sep);
        let pieces = split(init, sep);
        assert((seq![head] + pieces).drop_last() =~= seq![head] + pieces.drop_last());
        assert(split(s, sep) =~= seq![head] + split(tail, sep));
    }
}

/// No piece holds the separator.
pub proof fn pieces_hold_no_separator<T>(s: Seq<T>, sep: T, i: int)
    requires
        0 <= i < split(s, sep).len(),
    ensures
        !split(s, sep)[i].contains(sep),
    decreases s.len(),
{
    if s.len() > 0 {
        let init = split(s.drop_last(), sep);
        lemma_split_nonempty(s.drop_last(), sep);
        if i < init.len() {
            pieces_hold_no_separator(s.drop_last(), sep, i);
        }
        if s.last() != sep && i == init.len() - 1 {
            let piece = split(s, sep)[i];
            assert(piece == init.last().push(s.last()));
            if piece.contains(sep) {
                let k = choose|k: int| 0 <= k < piece.len() && piece[k] == sep;
                assert(init.last()[k] == sep);
            }
        }
    }
}

} // verus!
