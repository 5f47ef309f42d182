//! Character-level helpers shared by the codecs: splitting, joining and searching
//! sequences of characters, and building `String`s from them.
use vstd::prelude::*;
use vstd::string::*;

verus! {

/// Relies on `String::push`: appends one character at the end.
#[verifier::external_body]
pub(crate) fn push_char(s: &mut String, c: char)
    ensures
        final(s)@ == old(s)@.push(c),
{
    s.push(c);
}

/// Relies on `String::from_utf8`: it succeeds exactly on valid UTF-8, and the text then
/// holds the characters that the bytes encode.
#[verifier::external_body]
pub(crate) fn utf8_text(bytes: &[u8]) -> (r: Option<String>)
    ensures
        r is Some <==> vstd::utf8::valid_utf8(bytes@),
        r is Some ==> r->0@ == vstd::utf8::decode_utf8(bytes@),
{
    String::from_utf8(bytes.to_vec()).ok()
}

/// The pieces of `s` between the occurrences of `sep`, in order; `s` without any
/// `sep` is one piece, and two adjacent separators enclose an empty piece.
pub open spec fn split(s: Seq<char>, sep: char) -> Seq<Seq<char>>
    decreases s.len(),
{
    if s.len() == 0 {
        seq![Seq::<char>::empty()]
    } else {
        let init = split(s.drop_last(), sep);
        if s.last() == sep {
            init.push(Seq::<char>::empty())
        } else {
            init.update(init.len() - 1, init.last().push(s.last()))
        }
    }
}

/// The pieces joined, with `sep` between each two neighbours.
pub open spec fn join(items: Seq<Seq<char>>, sep: char) -> Seq<char>
    decreases items.len(),
{
    if items.len() == 0 {
        Seq::<char>::empty()
    } else if items.len() == 1 {
        items[0]
    } else {
        join(items.drop_last(), sep).push(sep) + items.last()
    }
}

/// The index of the first `c` in `s`, or the length of `s` where there is none.
pub open spec fn first_index(s: Seq<char>, c: char) -> int
    decreases s.len(),
{
    if s.len() == 0 {
        0
    } else if s[0] == c {
        0
    } else {
        1 + first_index(s.drop_first(), c)
    }
}

pub proof fn lemma_split_len(s: Seq<char>, sep: char)
    ensures
        split(s, sep).len() >= 1,
    decreases s.len(),
{
    if s.len() > 0 {
        lemma_split_len(s.drop_last(), sep);
    }
}

/// Text without the separator is a single piece.
pub proof fn lemma_split_single(s: Seq<char>, sep: char)
    requires
        !s.contains(sep),
    ensures
        split(s, sep) == seq![s],
    decreases s.len(),
{
    if s.len() > 0 {
        assert(!s.drop_last().contains(sep)) by {
            if s.drop_last().contains(sep) {
                let i = choose|i: int| 0 <= i < s.drop_last().len() && s.drop_last()[i] == sep;
                assert(s[i] == sep);
            }
        }
        lemma_split_single(s.drop_last(), sep);
        assert(s[s.len() - 1] != sep);
        assert(s.drop_last().push(s.last()) =~= s);
        assert(split(s, sep) =~= seq![s]);
    } else {
        assert(s =~= Seq::<char>::empty());
    }
}

/// Splitting after a separator: the pieces before it, then those of the rest.
pub proof fn lemma_split_append(x: Seq<char>, y: Seq<char>, sep: char)
    requires
        x.len() == 0 || x.last() == sep,
    ensures
        split(x + y, sep) == split(x, sep).drop_last() + split(y, sep),
    decreases y.len(),
{
    lemma_split_len(x, sep);
    lemma_split_len(y, sep);
    if y.len() == 0 {
        assert(x + y =~= x);
        if x.len() == 0 {
            assert(split(x, sep).drop_last() + split(y, sep) =~= split(y, sep));
        } else {
            assert(split(x, sep) =~= split(x.drop_last(), sep).push(Seq::<char>::empty()));
            assert(split(x, sep).drop_last() =~= split(x.drop_last(), sep));
            assert(split(x, sep).drop_last() + split(y, sep) =~= split(x, sep));
        }
    } else {
        let y0 = y.drop_last();
        lemma_split_append(x, y0, sep);
        lemma_split_len(y0, sep);
        assert((x + y).drop_last() =~= x + y0);
        assert((x + y).last() == y.last());
        let a = split(x, sep).drop_last();
        if y.last() == sep {
            assert(split(x + y, sep) =~= a + split(y, sep));
        } else {
            assert(split(x + y, sep) =~= a + split(y, sep));
        }
    }
}

/// Joining pieces free of the separator and splitting again gives the pieces back.
pub proof fn lemma_split_join(items: Seq<Seq<char>>, sep: char)
    requires
        items.len() >= 1,
        forall|i: int| 0 <= i < items.len() ==> !(#[trigger] items[i]).contains(sep),
    ensures
        split(join(items, sep), sep) == items,
    decreases items.len(),
{
    if items.len() == 1 {
        lemma_split_single(items[0], sep);
        assert(seq![items[0]] =~= items);
    } else {
        let init = items.drop_last();
        assert forall|i: int| 0 <= i < init.len() implies !(#[trigger] init[i]).contains(sep) by {
            assert(init[i] == items[i]);
        }
        lemma_split_join(init, sep);
        let x = join(init, sep).push(sep);
        lemma_split_append(x, items.last(), sep);
        lemma_split_single(items.last(), sep);
        assert(x.drop_last() =~= join(init, sep));
        assert(split(x, sep) == split(join(init, sep), sep).push(Seq::<char>::empty()));
        assert(split(x, sep).drop_last() =~= init);
        assert(init + seq![items.last()] =~= items);
    }
}

/// What `first_index` means: no earlier match, and a match there unless it is the end.
pub proof fn lemma_first_index(s: Seq<char>, c: char)
    ensures
        0 <= first_index(s, c) <= s.len(),
        forall|j: int| 0 <= j < first_index(s, c) ==> s[j] != c,
        first_index(s, c) < s.len() ==> s[first_index(s, c)] == c,
    decreases s.len(),
{
    if s.len() > 0 && s[0] != c {
        lemma_first_index(s.drop_first(), c);
        assert forall|j: int| 0 <= j < first_index(s, c) implies s[j] != c by {
            if j > 0 {
                assert(s[j] == s.drop_first()[j - 1]);
            }
        }
    }
}

/// The index that `first_index` gives is the one with no earlier match.
pub proof fn lemma_first_index_at(s: Seq<char>, c: char, i: int)
    requires
        0 <= i <= s.len(),
        forall|j: int| 0 <= j < i ==> s[j] != c,
        i < s.len() ==> s[i] == c,
    ensures
        first_index(s, c) == i,
    decreases s.len(),
{
    if s.len() > 0 && i > 0 {
        assert(s[0] != c);
        assert forall|j: int| 0 <= j < i - 1 implies s.drop_first()[j] != c by {
            assert(s.drop_first()[j] == s[j + 1]);
        }
        if i < s.len() {
            assert(s.drop_first()[i - 1] == s[i]);
        }
        lemma_first_index_at(s.drop_first(), c, i - 1);
    }
}

/// The characters of `s`, in order.
pub fn chars_of(s: &str) -> (r: Vec<char>)
    ensures
        r@ == s@,
{
    let mut r: Vec<char> = Vec::new();
    for c in it: s.chars()
        invariant
            r@ == it.seq().subrange(0, it.index() as int),
    {
        r.push(c);
    }
    r
}

/// A `String` holding the characters `s[from..to]`.
pub fn string_of(s: &[char], from: usize, to: usize) -> (r: String)
    requires
        from <= to <= s.len(),
    ensures
        r@ == s@.subrange(from as int, to as int),
{
    let mut r = String::new();
    let mut i: usize = from;
    while i < to
        invariant
            from <= i <= to <= s.len(),
            r@ == s@.subrange(from as int, i as int),
        decreases to - i,
    {
        push_char(&mut r, s[i]);
        assert(r@ =~= s@.subrange(from as int, i + 1));
        i = i + 1;
    }
    r
}

/// Appends `t` to `out`.
pub fn push_str(out: &mut String, t: &str)
    ensures
        final(out)@ == old(out)@ + t@,
{
    out.append(t);
}

/// Whether `s[from..to]` spells `word`.
pub fn spells(s: &[char], from: usize, to: usize, word: &str) -> (r: bool)
    requires
        from <= to <= s.len(),
    ensures
        r == (s@.subrange(from as int, to as int) == word@),
{
    let n = word.unicode_len();
    if to - from != n {
        return false;
    }
    let mut i: usize = 0;
    while i < n
        invariant
            0 <= i <= n,
            n == word@.len(),
            to - from == n,
            from <= to <= s.len(),
            forall|j: int| 0 <= j < i ==> s@[from + j] == word@[j],
        decreases n - i,
    {
        if s[from + i] != word.get_char(i) {
            assert(s@.subrange(from as int, to as int)[i as int] != word@[i as int]);
            return false;
        }
        i = i + 1;
    }
    assert(s@.subrange(from as int, to as int) =~= word@);
    true
}

/// Index of the first `c` in `s[from..to]`, counted from `from`; `to - from` where
/// there is none.
pub fn find_char(s: &[char], from: usize, to: usize, c: char) -> (r: usize)
    requires
        from <= to <= s.len(),
    ensures
        r == first_index(s@.subrange(from as int, to as int), c),
{
    let ghost t = s@.subrange(from as int, to as int);
    let mut i: usize = from;
    while i < to
        invariant
            from <= i <= to <= s.len(),
            t == s@.subrange(from as int, to as int),
            forall|j: int| 0 <= j < i - from ==> t[j] != c,
        decreases to - i,
    {
        if s[i] == c {
            proof {
                lemma_first_index_at(t, c, i - from);
            }
            return i - from;
        }
        i = i + 1;
    }
    proof {
        lemma_first_index_at(t, c, to - from);
    }
    to - from
}

/// The pieces of `s[from..to]` between the occurrences of `sep`.
pub fn split_chars(s: &[char], from: usize, to: usize, sep: char) -> (r: Vec<Vec<char>>)
    requires
        from <= to <= s.len(),
    ensures
        r.len() == split(s@.subrange(from as int, to as int), sep).len(),
        forall|j: int|
            0 <= j < r.len() ==> #[trigger] r[j]@ == split(
                s@.subrange(from as int, to as int),
                sep,
            )[j],
{
    let mut pieces: Vec<Vec<char>> = Vec::new();
    let mut cur: Vec<char> = Vec::new();
    let mut i: usize = from;
    while i < to
        invariant
            from <= i <= to <= s.len(),
            pieces.len() + 1 == split(s@.subrange(from as int, i as int), sep).len(),
            forall|j: int|
                0 <= j < pieces.len() ==> #[trigger] pieces[j]@ == split(
                    s@.subrange(from as int, i as int),
                    sep,
                )[j],
            cur@ == split(s@.subrange(from as int, i as int), sep).last(),
        decreases to - i,
    {
        let ghost before = split(s@.subrange(from as int, i as int), sep);
        let ghost next = s@.subrange(from as int, i + 1);
        proof {
            assert(next.drop_last() =~= s@.subrange(from as int, i as int));
            assert(next.last() == s@[i as int]);
            lemma_split_len(s@.subrange(from as int, i as int), sep);
        }
        if s[i] == sep {
            let done = cur;
            pieces.push(done);
            cur = Vec::new();
            proof {
                assert(split(next, sep) == before.push(Seq::<char>::empty()));
                assert forall|j: int| 0 <= j < pieces.len() implies #[trigger] pieces[j]@ == split(
                    next,
                    sep,
                )[j] by {
                    if j < pieces.len() - 1 {
                        assert(pieces[j]@ == before[j]);
                    }
                }
            }
        } else {
            cur.push(s[i]);
            proof {
                assert(split(next, sep) == before.update(
                    before.len() - 1,
                    before.last().push(s@[i as int]),
                ));
            }
        }
        i = i + 1;
    }
    let last = cur;
    pieces.push(last);
    proof {
        let all = split(s@.subrange(from as int, to as int), sep);
        assert forall|j: int| 0 <= j < pieces.len() implies #[trigger] pieces[j]@ == all[j] by {}
    }
    pieces
}

} // verus!
