//! Sequences of characters: white space, trimming and splitting.

use vstd::prelude::*;

verus! {

/// Whether `c` is white space as Unicode defines it (`White_Space`).
pub open spec fn is_whitespace(c: char) -> bool {
    let u = c as u32;
    ||| 0x09 <= u <= 0x0D
    ||| u == 0x20
    ||| u == 0x85
    ||| u == 0xA0
    ||| u == 0x1680
    ||| 0x2000 <= u <= 0x200A
    ||| u == 0x2028
    ||| u == 0x2029
    ||| u == 0x202F
    ||| u == 0x205F
    ||| u == 0x3000
}

/// Tells whether `c` is white space.
pub fn char_is_whitespace(c: char) -> (b: bool)
    ensures
        b == is_whitespace(c),
{
    let u: u32 = c as u32;
    (0x09 <= u && u <= 0x0D) || u == 0x20 || u == 0x85 || u == 0xA0 || u == 0x1680 || (0x2000 <= u
        && u <= 0x200A) || u == 0x2028 || u == 0x2029 || u == 0x202F || u == 0x205F || u == 0x3000
}

/// `s` without the white space at its start.
pub open spec fn trim_start(s: Seq<char>) -> Seq<char>
    decreases s.len(),
{
    if s.len() > 0 && is_whitespace(s.first()) {
        trim_start(s.drop_first())
    } else {
        s
    }
}

/// `s` without the white space at its end.
pub open spec fn trim_end(s: Seq<char>) -> Seq<char>
    decreases s.len(),
{
    if s.len() > 0 && is_whitespace(s.last()) {
        trim_end(s.drop_last())
    } else {
        s
    }
}

/// `s` without the white space at its start and at its end.
pub open spec fn trim(s: Seq<char>) -> Seq<char> {
    trim_end(trim_start(s))
}

/// The pieces into which the separator cuts `s`: one more than `s` has
/// separators, in their order, none of them holding a separator.
pub open spec fn split(s: Seq<char>, sep: char) -> Seq<Seq<char>>
    decreases s.len(),
{
    if s.len() == 0 {
        seq![Seq::<char>::empty()]
    } else {
        let init = split(s.drop_last(), sep);
        if s.last() == sep {
            init.push(Seq::<char>::empty())
        } else {
            init.drop_last().push(init.last().push(s.last()))
        }
    }
}

/// The pieces of `pieces` in one sequence, with a separator between each
/// two.
pub open spec fn join(pieces: Seq<Seq<char>>, sep: char) -> Seq<char>
    decreases pieces.len(),
{
    if pieces.len() == 0 {
        Seq::<char>::empty()
    } else if pieces.len() == 1 {
        pieces[0]
    } else {
        join(pieces.drop_last(), sep) + seq![sep] + pieces.last()
    }
}

/// Splitting gives at least one piece and at most one more than there are
/// characters; no piece holds the separator; and the pieces joined by the
/// separator are the sequence that was split.
pub proof fn lemma_split(s: Seq<char>, sep: char)
    ensures
        1 <= split(s, sep).len() <= s.len() + 1,
        forall|i: int| 0 <= i < split(s, sep).len() ==> !(#[trigger] split(s, sep)[i]).contains(sep),
        join(split(s, sep), sep) == s,
    decreases s.len(),
{
    let pieces = split(s, sep);
    if s.len() == 0 {
        assert(join(pieces, sep) =~= s);
    } else {
        let init = split(s.drop_last(), sep);
        lemma_split(s.drop_last(), sep);
        if s.last() == sep {
            assert(pieces.drop_last() =~= init);
            assert(join(pieces, sep) =~= s);
        } else {
            let grown = init.last().push(s.last());
            assert(pieces.last() == grown);
            assert forall|i: int| 0 <= i < pieces.len() implies !(#[trigger] pieces[i]).contains(
                sep,
            ) by {
                if i < pieces.len() - 1 {
                    assert(pieces[i] == init[i]);
                } else {
                    if grown.contains(sep) {
                        let k = choose|k: int| 0 <= k < grown.len() && grown[k] == sep;
                        assert(init.last()[k] == sep);
                        assert(init[init.len() - 1].contains(sep));
                    }
                }
            }
            if init.len() == 1 {
                assert(join(pieces, sep) =~= s);
            } else {
                let front = join(init.drop_last(), sep) + seq![sep];
                assert(pieces.drop_last() =~= init.drop_last());
                assert(join(pieces, sep) == front + grown);
                assert(join(init, sep) == front + init.last());
                assert(front + grown =~= (front + init.last()).push(s.last()));
                assert(s =~= s.drop_last().push(s.last()));
            }
        }
    }
}

/// Tells apart the white space at the two ends of `s`: the index of the
/// first character that stays and the index behind the last one.
fn trim_bounds(s: &Vec<char>) -> (bounds: (usize, usize))
    ensures
        bounds.0 <= bounds.1 <= s.len(),
        s@.subrange(bounds.0 as int, bounds.1 as int) == trim(s@),
{
    let mut lo: usize = 0;
    assert(s@.skip(0) == s@);
    while lo < s.len() && char_is_whitespace(s[lo])
        invariant
            lo <= s.len(),
            trim_start(s@) == trim_start(s@.skip(lo as int)),
        decreases s.len() - lo,
    {
        assert(s@.skip(lo as int).drop_first() == s@.skip(lo + 1));
        lo += 1;
    }
    let ghost rest = s@.skip(lo as int);
    assert(trim_start(s@) == rest);
    let mut hi: usize = s.len();
    assert(rest.take(hi - lo) == rest);
    while hi > lo && char_is_whitespace(s[hi - 1])
        invariant
            lo <= hi <= s.len(),
            rest == s@.skip(lo as int),
            trim_end(rest) == trim_end(rest.take(hi - lo)),
        decreases hi,
    {
        assert(rest.take(hi - lo).drop_last() == rest.take(hi - lo - 1));
        hi -= 1;
    }
    assert(trim_end(rest) == rest.take(hi - lo));
    assert(rest.take(hi - lo) == s@.subrange(lo as int, hi as int));
    (lo, hi)
}

/// `s` without the white space at its start and at its end.
pub fn trim_chars(s: &Vec<char>) -> (trimmed: Vec<char>)
    ensures
        trimmed@ == trim(s@),
{
    let (lo, hi) = trim_bounds(s);
    let mut trimmed: Vec<char> = Vec::new();
    let mut i: usize = lo;
    while i < hi
        invariant
            lo <= i <= hi <= s.len(),
            trimmed@ == s@.subrange(lo as int, i as int),
        decreases hi - i,
    {
        trimmed.push(s[i]);
        assert(s@.subrange(lo as int, i + 1) == s@.subrange(lo as int, i as int).push(s@[i as int]));
        i += 1;
    }
    trimmed
}

/// Cuts `s` at each separator.
pub fn split_chars(s: &Vec<char>, sep: char) -> (pieces: Vec<Vec<char>>)
    ensures
        pieces.deep_view() == split(s@, sep),
{
    let mut pieces: Vec<Vec<char>> = Vec::new();
    let mut piece: Vec<char> = Vec::new();
    let mut i: usize = 0;
    assert(s@.take(0) == Seq::<char>::empty());
    assert(pieces.deep_view().push(piece@) == split(s@.take(0), sep));
    while i < s.len()
        invariant
            i <= s.len(),
            pieces.deep_view().push(piece@) == split(s@.take(i as int), sep),
        decreases s.len() - i,
    {
        let ghost before = pieces.deep_view();
        let ghost open_piece = piece@;
        let ghost head = s@.take(i as int);
        let ghost grown = s@.take(i + 1);
        assert(grown.drop_last() == head);
        assert(grown.last() == s@[i as int]);
        let c = s[i];
        if c == sep {
            assert(piece.deep_view() == open_piece);
            pieces.push(piece);
            piece = Vec::new();
            assert(pieces.deep_view() == before.push(open_piece));
        } else {
            piece.push(c);
            assert(before.push(open_piece).drop_last() == before);
        }
        i += 1;
    }
    assert(s@.take(s.len() as int) == s@);
    let ghost before = pieces.deep_view();
    let ghost open_piece = piece@;
    assert(piece.deep_view() == open_piece);
    pieces.push(piece);
    assert(pieces.deep_view() == before.push(open_piece));
    pieces
}

/// The characters of `s`, one by one.
pub fn chars_of(s: &str) -> (v: Vec<char>)
    ensures
        v@ == s@,
{
    let mut v: Vec<char> = Vec::new();
    let chars = s.chars();
    for c in it: chars
        invariant
            it.seq() == s@,
            v@ == s@.take(it.index()),
    {
        v.push(c);
    }
    assert(s@.take(s@.len() as int) == s@);
    v
}

/// `String::push` of the standard library: the character is appended to
/// the string, the characters before it stay as they were.
pub assume_specification[ String::push ](s: &mut String, c: char)
    ensures
        final(s)@ == old(s)@.push(c),
;

/// The string made of the characters of `v`.
pub fn string_of(v: &Vec<char>) -> (s: String)
    ensures
        s@ == v@,
{
    let mut s = String::new();
    let mut i: usize = 0;
    while i < v.len()
        invariant
            i <= v.len(),
            s@ == v@.take(i as int),
        decreases v.len() - i,
    {
        s.push(v[i]);
        i += 1;
    }
    assert(v@.take(v@.len() as int) == v@);
    s
}

} // verus!
