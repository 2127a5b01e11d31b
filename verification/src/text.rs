//! Texts as sequences of characters.

use vstd::prelude::*;

verus! {

/// `String::push` puts one character at the end of the text.
pub assume_specification[ String::push ](s: &mut String, c: char)
    ensures
        final(s)@ == old(s)@.push(c),
;

/// The text of each string, in order.
pub open spec fn texts(v: Seq<String>) -> Seq<Seq<char>> {
    v.map_values(|s: String| s@)
}

/// The characters of `s`, in order.
pub fn chars_of(s: &str) -> (v: Vec<char>)
    ensures
        v@ == s@,
{
    let mut v: Vec<char> = Vec::new();
    for c in it: s.chars()
        invariant
            it.seq() == s@,
            v@ == s@.take(it.index()),
    {
        assert(s@.take(it.index() + 1) == s@.take(it.index()).push(c));
        v.push(c);
    }
    v
}

/// Puts `src[from..to]` at the end of `buf`.
pub fn append_range(buf: &mut Vec<char>, src: &Vec<char>, from: usize, to: usize)
    requires
        from <= to <= src.len(),
    ensures
        final(buf)@ == old(buf)@ + src@.subrange(from as int, to as int),
{
    let ghost start = buf@;
    let mut k: usize = from;
    while k < to
        invariant
            from <= k <= to <= src.len(),
            buf@ == start + src@.subrange(from as int, k as int),
        decreases to - k,
    {
        buf.push(src[k]);
        assert(src@.subrange(from as int, k + 1) == src@.subrange(from as int, k as int).push(
            src@[k as int],
        ));
        k = k + 1;
    }
}

/// Puts the characters of `src` at the end of `buf`.
pub fn append_all(buf: &mut Vec<char>, src: &Vec<char>)
    ensures
        final(buf)@ == old(buf)@ + src@,
{
    assert(src@.subrange(0, src.len() as int) =~= src@);
    append_range(buf, src, 0, src.len());
}

/// The string made of `v[from..to]`.
pub fn string_of_range(v: &Vec<char>, from: usize, to: usize) -> (s: String)
    requires
        from <= to <= v.len(),
    ensures
        s@ == v@.subrange(from as int, to as int),
{
    let mut s = String::new();
    let mut i: usize = from;
    while i < to
        invariant
            from <= i <= to <= v.len(),
            s@ == v@.subrange(from as int, i as int),
        decreases to - i,
    {
        s.push(v[i]);
        assert(v@.subrange(from as int, i + 1) == v@.subrange(from as int, i as int).push(
            v@[i as int],
        ));
        i = i + 1;
    }
    s
}

/// The string made of the characters of `v`, in order.
pub fn string_of(v: &Vec<char>) -> (s: String)
    ensures
        s@ == v@,
{
    assert(v@.subrange(0, v.len() as int) =~= v@);
    string_of_range(v, 0, v.len())
}

} // verus!
