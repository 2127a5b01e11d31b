//! Path arithmetic on text, with `/` as the only separator.
//!
//! A path is a sequence of characters. Its components are the root `/`
//! (when the path begins with one), a leading `.`, and every non-empty
//! piece between separators other than a `.` further in. Nothing here
//! touches the file system.

use crate::text::{append_range, chars_of, string_of, string_of_range};
use vstd::prelude::*;

verus! {

/// Whether the piece `s[a..b]` counts as a component: it is not empty,
/// and it is not a `.` anywhere but at the very beginning of the path.
pub open spec fn is_component(s: Seq<char>, a: int, b: int) -> bool {
    a < b && !(b == a + 1 && s[a] == '.' && a > 0)
}

/// The component made of `s[a..b]`, if that piece counts as one.
pub open spec fn piece(s: Seq<char>, a: int, b: int) -> Seq<(int, int)> {
    if is_component(s, a, b) {
        seq![(a, b)]
    } else {
        Seq::empty()
    }
}

/// The components found from position `i` on, when the piece being read
/// began at `a`.
pub open spec fn components_from(s: Seq<char>, a: int, i: int) -> Seq<(int, int)>
    decreases s.len() - i,
{
    if i >= s.len() {
        piece(s, a, s.len() as int)
    } else if s[i] == '/' {
        piece(s, a, i) + components_from(s, i + 1, i + 1)
    } else {
        components_from(s, a, i + 1)
    }
}

/// Whether the path begins at the root.
pub open spec fn has_root(s: Seq<char>) -> bool {
    s.len() > 0 && s[0] == '/'
}

/// The components of a path, each as the half-open range of positions
/// that it occupies, in order.
pub open spec fn components(s: Seq<char>) -> Seq<(int, int)> {
    if has_root(s) {
        seq![(0int, 1int)] + components_from(s, 1, 1)
    } else {
        components_from(s, 0, 0)
    }
}

/// The text of each component, in order.
pub open spec fn names(s: Seq<char>) -> Seq<Seq<char>> {
    components(s).map_values(|c: (int, int)| s.subrange(c.0, c.1))
}

/// Ranges that lie within `lo..hi`, are not empty and follow one another
/// without overlap.
pub open spec fn ordered(spans: Seq<(int, int)>, lo: int, hi: int) -> bool {
    &&& forall|k: int| 0 <= k < spans.len() ==> lo <= (#[trigger] spans[k]).0 < spans[k].1 <= hi
    &&& forall|j: int, k: int|
        0 <= j < k < spans.len() ==> (#[trigger] spans[j]).1 <= (#[trigger] spans[k]).0
}

/// The ranges held in `v`, as mathematical integers.
pub open spec fn ranges(v: Seq<(usize, usize)>) -> Seq<(int, int)> {
    v.map_values(|c: (usize, usize)| (c.0 as int, c.1 as int))
}

/// The path after `seg` is appended to `buf` as one more piece: a `seg`
/// that begins at the root replaces `buf`; otherwise a separator is put
/// between them unless `buf` is empty or already ends with one.
pub open spec fn pushed(buf: Seq<char>, seg: Seq<char>) -> Seq<char> {
    if has_root(seg) {
        seg
    } else if buf.len() > 0 && buf.last() != '/' {
        buf.push('/') + seg
    } else {
        buf + seg
    }
}

/// The path after each of `segs` is appended to `buf` in turn.
pub open spec fn pushed_all(buf: Seq<char>, segs: Seq<Seq<char>>) -> Seq<char>
    decreases segs.len(),
{
    if segs.len() == 0 {
        buf
    } else {
        pushed(pushed_all(buf, segs.drop_last()), segs.last())
    }
}

/// The path without its last component, where it has one to give up:
/// `None` for the empty path and for one that is only the root.
pub open spec fn parent(s: Seq<char>) -> Option<Seq<char>> {
    let c = components(s);
    if c.len() == 0 || (c.len() == 1 && has_root(s)) {
        None
    } else if c.len() == 1 {
        Some(Seq::empty())
    } else {
        Some(s.subrange(0, c[c.len() - 2].1))
    }
}

/// The path cut back to its parent, or left alone where it has none.
pub open spec fn popped(s: Seq<char>) -> Seq<char> {
    match parent(s) {
        Some(p) => p,
        None => s,
    }
}

/// Whether a component's text names an entry, rather than the root,
/// the current directory or the directory above.
pub open spec fn is_entry_name(name: Seq<char>) -> bool {
    name != seq!['/'] && name != seq!['.'] && name != seq!['.', '.']
}

/// The last component, where it names an entry.
pub open spec fn file_name(s: Seq<char>) -> Option<Seq<char>> {
    let c = components(s);
    if c.len() > 0 && is_entry_name(s.subrange(c.last().0, c.last().1)) {
        Some(s.subrange(c.last().0, c.last().1))
    } else {
        None
    }
}

/// Whether `t`'s components are the last components of `s`.
pub open spec fn ends_with(s: Seq<char>, t: Seq<char>) -> bool {
    let ns = names(s);
    let nt = names(t);
    nt.len() <= ns.len() && ns.subrange(ns.len() - nt.len(), ns.len() as int) == nt
}

/// What is left of `s` after the components of `base`, where `s` begins
/// with them: the text from the first remaining component to the end of
/// the last one.
pub open spec fn strip_prefix(s: Seq<char>, base: Seq<char>) -> Option<Seq<char>> {
    let c = components(s);
    let ns = names(s);
    let nb = names(base);
    if nb.len() <= ns.len() && ns.subrange(0, nb.len() as int) == nb {
        if nb.len() == ns.len() {
            Some(Seq::empty())
        } else {
            Some(s.subrange(c[nb.len() as int].0, c.last().1))
        }
    } else {
        None
    }
}

/// Whether an entry name has `ext` as its extension: what follows the
/// name's last dot, that dot not being the name's first character. Meant
/// for an `ext` that holds no dot.
pub open spec fn has_extension(name: Seq<char>, ext: Seq<char>) -> bool {
    &&& name.len() > ext.len() + 1
    &&& name[name.len() - ext.len() - 1] == '.'
    &&& name.subrange(name.len() - ext.len(), name.len() as int) == ext
}

/// The path cut right after the stem of its file name, where that name
/// has the extension `ext`; the path itself otherwise.
pub open spec fn without_extension(s: Seq<char>, ext: Seq<char>) -> Seq<char> {
    match file_name(s) {
        Some(name) => if has_extension(name, ext) {
            s.subrange(0, components(s).last().1 - ext.len() - 1)
        } else {
            s
        },
        None => s,
    }
}

/// Whether a text can stand as one piece of a path: it is not empty,
/// holds no separator and is not `.`.
pub open spec fn is_plain_piece(x: Seq<char>) -> bool {
    &&& x.len() > 0
    &&& x != seq!['.']
    &&& forall|j: int| 0 <= j < x.len() ==> x[j] != '/'
}

/// Whether `s[a..b]` holds no separator.
pub open spec fn free_of_separators(s: Seq<char>, a: int, b: int) -> bool {
    forall|j: int| a <= j < b ==> s[j] != '/'
}

/// Whether each of `segs` is a plain piece.
pub open spec fn all_plain(segs: Seq<Seq<char>>) -> bool {
    forall|k: int| 0 <= k < segs.len() ==> is_plain_piece(#[trigger] segs[k])
}

/// The text made of each of `segs` behind a separator: `/a/b/c` for
/// `a`, `b` and `c`.
pub open spec fn trail(segs: Seq<Seq<char>>) -> Seq<char>
    decreases segs.len(),
{
    if segs.len() == 0 {
        Seq::empty()
    } else {
        trail(segs.drop_last()).push('/') + segs.last()
    }
}

/// Finds the components of `s`.
pub fn component_spans(s: &Vec<char>) -> (out: Vec<(usize, usize)>)
    ensures
        ranges(out@) == components(s@),
        ordered(ranges(out@), 0, s.len() as int),
{
    let n = s.len();
    let mut out: Vec<(usize, usize)> = Vec::new();
    let mut a: usize = 0;
    let mut i: usize = 0;
    if n > 0 && s[0] == '/' {
        out.push((0, 1));
        a = 1;
        i = 1;
        assert(ranges(out@) == seq![(0int, 1int)]);
    } else {
        assert(ranges(out@) == Seq::<(int, int)>::empty());
    }
    while i < n
        invariant
            n == s.len(),
            a <= i <= n,
            ranges(out@) + components_from(s@, a as int, i as int) == components(s@),
        decreases n - i,
    {
        if s[i] == '/' {
            let ghost before = ranges(out@);
            let ghost rest = components_from(s@, i + 1, i + 1);
            if a < i && !(i == a + 1 && s[a] == '.' && a > 0) {
                out.push((a, i));
                assert(ranges(out@) == before + seq![(a as int, i as int)]);
                assert(before + seq![(a as int, i as int)] + rest == before + (seq![
                    (a as int, i as int),
                ] + rest));
            } else {
                assert(before + rest == before + (Seq::<(int, int)>::empty() + rest));
            }
            a = i + 1;
        }
        i = i + 1;
    }
    let ghost before = ranges(out@);
    if a < n && !(n == a + 1 && s[a] == '.' && a > 0) {
        out.push((a, n));
        assert(ranges(out@) == before + seq![(a as int, n as int)]);
    } else {
        assert(before + Seq::<(int, int)>::empty() == before);
    }
    proof {
        lemma_components_ordered(s@);
    }
    out
}

/// Whether `s[a..b]` and `t[c..d]` hold the same text.
pub fn same_text(s: &Vec<char>, a: usize, b: usize, t: &Vec<char>, c: usize, d: usize) -> (r: bool)
    requires
        a <= b <= s.len(),
        c <= d <= t.len(),
    ensures
        r == (s@.subrange(a as int, b as int) == t@.subrange(c as int, d as int)),
{
    if b - a != d - c {
        assert(s@.subrange(a as int, b as int).len() != t@.subrange(c as int, d as int).len());
        return false;
    }
    let n = b - a;
    let mut k: usize = 0;
    while k < n
        invariant
            a <= b <= s.len(),
            c <= d <= t.len(),
            n == b - a,
            n == d - c,
            k <= n,
            forall|j: int| 0 <= j < k ==> #[trigger] s@[a + j] == t@[c + j],
        decreases n - k,
    {
        if s[a + k] != t[c + k] {
            assert(s@.subrange(a as int, b as int)[k as int] != t@.subrange(c as int, d as int)[k as int]);
            return false;
        }
        k = k + 1;
    }
    assert forall|j: int| 0 <= j < n implies s@.subrange(a as int, b as int)[j] == t@.subrange(
        c as int,
        d as int,
    )[j] by {
        assert(s@[a + j] == t@[c + j]);
    }
    assert(s@.subrange(a as int, b as int) =~= t@.subrange(c as int, d as int));
    true
}

/// Appends `seg[from..to]` to `buf` as one more piece.
pub fn push_piece(buf: &mut Vec<char>, seg: &Vec<char>, from: usize, to: usize)
    requires
        from <= to <= seg.len(),
    ensures
        final(buf)@ == pushed(old(buf)@, seg@.subrange(from as int, to as int)),
{
    let ghost piece = seg@.subrange(from as int, to as int);
    if from < to && seg[from] == '/' {
        buf.clear();
        assert(buf@ + piece =~= piece);
    } else if buf.len() > 0 && buf[buf.len() - 1] != '/' {
        buf.push('/');
    }
    append_range(buf, seg, from, to);
}

/// Cuts `buf` back to its parent, where it has one.
pub fn pop_last(buf: &mut Vec<char>)
    ensures
        final(buf)@ == popped(old(buf)@),
{
    let spans = component_spans(buf);
    let n = spans.len();
    let rooted = buf.len() > 0 && buf[0] == '/';
    if n == 0 || (n == 1 && rooted) {
    } else if n == 1 {
        buf.clear();
    } else {
        let end = spans[n - 2].1;
        assert(ranges(spans@)[n - 2] == (spans@[n - 2].0 as int, spans@[n - 2].1 as int));
        buf.truncate(end);
    }
}

/// Whether the components of `t` are the last components of `s`.
pub fn ends_with_chars(s: &Vec<char>, t: &Vec<char>) -> (r: bool)
    ensures
        r == ends_with(s@, t@),
{
    let cs = component_spans(s);
    let ct = component_spans(t);
    if ct.len() > cs.len() {
        return false;
    }
    let off = cs.len() - ct.len();
    let ghost ns = names(s@);
    let ghost nt = names(t@);
    let mut k: usize = 0;
    while k < ct.len()
        invariant
            ranges(cs@) == components(s@),
            ranges(ct@) == components(t@),
            ordered(ranges(cs@), 0, s.len() as int),
            ordered(ranges(ct@), 0, t.len() as int),
            ns == names(s@),
            nt == names(t@),
            off + ct.len() == cs.len(),
            k <= ct.len(),
            forall|j: int| 0 <= j < k ==> ns[off + j] == #[trigger] nt[j],
        decreases ct.len() - k,
    {
        let (a, b) = cs[off + k];
        let (c, d) = ct[k];
        assert(ranges(cs@)[off + k] == (a as int, b as int));
        assert(ranges(ct@)[k as int] == (c as int, d as int));
        if !same_text(s, a, b, t, c, d) {
            assert(ns.subrange(ns.len() - nt.len(), ns.len() as int)[k as int] != nt[k as int]);
            return false;
        }
        k = k + 1;
    }
    assert(ns.subrange(ns.len() - nt.len(), ns.len() as int) =~= nt);
    true
}

/// The range of `s` that is left after the components of `base`, where
/// `s` begins with them.
pub fn strip_prefix_chars(s: &Vec<char>, base: &Vec<char>) -> (r: Option<(usize, usize)>)
    ensures
        match r {
            Some((a, b)) => a <= b <= s.len() && strip_prefix(s@, base@) == Some(
                s@.subrange(a as int, b as int),
            ),
            None => strip_prefix(s@, base@) is None,
        },
{
    let cs = component_spans(s);
    let cb = component_spans(base);
    if cb.len() > cs.len() {
        return None;
    }
    let ghost ns = names(s@);
    let ghost nb = names(base@);
    let mut k: usize = 0;
    while k < cb.len()
        invariant
            ranges(cs@) == components(s@),
            ranges(cb@) == components(base@),
            ordered(ranges(cs@), 0, s.len() as int),
            ordered(ranges(cb@), 0, base.len() as int),
            ns == names(s@),
            nb == names(base@),
            cb.len() <= cs.len(),
            k <= cb.len(),
            forall|j: int| 0 <= j < k ==> ns[j] == #[trigger] nb[j],
        decreases cb.len() - k,
    {
        let (a, b) = cs[k];
        let (c, d) = cb[k];
        assert(ranges(cs@)[k as int] == (a as int, b as int));
        assert(ranges(cb@)[k as int] == (c as int, d as int));
        if !same_text(s, a, b, base, c, d) {
            assert(ns.subrange(0, nb.len() as int)[k as int] != nb[k as int]);
            return None;
        }
        k = k + 1;
    }
    assert(ns.subrange(0, nb.len() as int) =~= nb);
    if cb.len() == cs.len() {
        assert(s@.subrange(0, 0) =~= Seq::<char>::empty());
        Some((0, 0))
    } else {
        let first = cs[cb.len()].0;
        let last = cs[cs.len() - 1].1;
        assert(ranges(cs@)[cb.len() as int] == (cs@[cb.len() as int].0 as int, cs@[cb.len() as int].1 as int));
        assert(ranges(cs@)[cs.len() - 1] == (cs@[cs.len() - 1].0 as int, cs@[cs.len() - 1].1 as int));
        assert(ranges(cs@).last() == ranges(cs@)[cs.len() - 1]);
        Some((first, last))
    }
}

/// The range of the last component of `s`, where it names an entry.
pub fn file_name_chars(s: &Vec<char>) -> (r: Option<(usize, usize)>)
    ensures
        match r {
            Some((a, b)) => a < b <= s.len() && components(s@).len() > 0 && components(s@).last()
                == (a as int, b as int) && file_name(s@) == Some(s@.subrange(a as int, b as int)),
            None => file_name(s@) is None,
        },
{
    let spans = component_spans(s);
    let n = spans.len();
    if n == 0 {
        return None;
    }
    let (a, b) = spans[n - 1];
    assert(ranges(spans@)[n - 1] == (a as int, b as int));
    let ghost name = s@.subrange(a as int, b as int);
    let one = b - a == 1;
    let two = b - a == 2;
    if one && (s[a] == '/' || s[a] == '.') {
        assert(name =~= seq![s@[a as int]]);
        None
    } else if two && s[a] == '.' && s[a + 1] == '.' {
        assert(name =~= seq!['.', '.']);
        None
    } else {
        assert(is_entry_name(name)) by {
            if one {
                assert(name[0] == s@[a as int]);
            } else if two {
                assert(name[0] == s@[a as int]);
                assert(name[1] == s@[a + 1]);
            } else {
                assert(name.len() != 1 && name.len() != 2);
            }
        }
        Some((a, b))
    }
}

/// Cuts `buf` right after the stem of its file name, where that name has
/// the extension `ext`.
pub fn strip_extension(buf: &mut Vec<char>, ext: &Vec<char>)
    ensures
        final(buf)@ == without_extension(old(buf)@, ext@),
{
    match file_name_chars(buf) {
        Some((a, b)) => {
            let m = ext.len();
            if b - a > m && b - a - m > 1 && buf[b - m - 1] == '.' && same_text(
                buf,
                b - m,
                b,
                ext,
                0,
                m,
            ) {
                assert(ext@.subrange(0, m as int) =~= ext@);
                let ghost name = buf@.subrange(a as int, b as int);
                assert(name.subrange(name.len() - m, name.len() as int) =~= buf@.subrange(
                    b - m,
                    b as int,
                ));
                buf.truncate(b - m - 1);
            } else {
                proof {
                    let name = buf@.subrange(a as int, b as int);
                    if name.len() > m + 1 && name[name.len() - m - 1] == '.' {
                        assert(ext@.subrange(0, m as int) =~= ext@);
                        assert(name.subrange(name.len() - m, name.len() as int) =~= buf@.subrange(
                            b - m,
                            b as int,
                        ));
                    }
                }
            }
        },
        None => {},
    }
}

/// The path `base` with `seg` appended as one more piece.
pub fn join(base: &str, seg: &str) -> (r: String)
    ensures
        r@ == pushed(base@, seg@),
{
    let mut buf = chars_of(base);
    let piece = chars_of(seg);
    push_piece(&mut buf, &piece, 0, piece.len());
    assert(piece@.subrange(0, piece.len() as int) =~= piece@);
    string_of(&buf)
}

/// Whether the components of `child` are the last components of `path`.
pub fn path_ends_with(path: &str, child: &str) -> (r: bool)
    ensures
        r == ends_with(path@, child@),
{
    let s = chars_of(path);
    let t = chars_of(child);
    ends_with_chars(&s, &t)
}

/// What is left of `path` after the components of `base`, where `path`
/// begins with them.
pub fn relative_to(path: &str, base: &str) -> (r: Option<String>)
    ensures
        match r {
            Some(rest) => strip_prefix(path@, base@) == Some(rest@),
            None => strip_prefix(path@, base@) is None,
        },
{
    let s = chars_of(path);
    let b = chars_of(base);
    match strip_prefix_chars(&s, &b) {
        Some((from, to)) => Some(string_of_range(&s, from, to)),
        None => None,
    }
}

/// The last component of `path`, where it names an entry.
pub fn file_name_of(path: &str) -> (r: Option<String>)
    ensures
        match r {
            Some(name) => file_name(path@) == Some(name@),
            None => file_name(path@) is None,
        },
{
    let s = chars_of(path);
    match file_name_chars(&s) {
        Some((from, to)) => Some(string_of_range(&s, from, to)),
        None => None,
    }
}

/// The path without its last component, where it has one to give up.
pub fn parent_of(path: &str) -> (r: Option<String>)
    ensures
        match r {
            Some(p) => parent(path@) == Some(p@),
            None => parent(path@) is None,
        },
{
    let s = chars_of(path);
    let spans = component_spans(&s);
    let n = spans.len();
    let rooted = s.len() > 0 && s[0] == '/';
    if n == 0 || (n == 1 && rooted) {
        None
    } else if n == 1 {
        assert(s@.subrange(0, 0) =~= Seq::<char>::empty());
        Some(string_of_range(&s, 0, 0))
    } else {
        let end = spans[n - 2].1;
        assert(ranges(spans@)[n - 2] == (spans@[n - 2].0 as int, spans@[n - 2].1 as int));
        Some(string_of_range(&s, 0, end))
    }
}

/// The components found by `components_from` lie in order between the
/// start of the piece being read and the end of the path.
pub proof fn lemma_found_in_order(s: Seq<char>, a: int, i: int)
    requires
        0 <= a <= i <= s.len(),
    ensures
        ordered(components_from(s, a, i), a, s.len() as int),
    decreases s.len() - i,
{
    if i >= s.len() {
    } else if s[i] == '/' {
        lemma_found_in_order(s, i + 1, i + 1);
        let head = piece(s, a, i);
        let rest = components_from(s, i + 1, i + 1);
        let all = head + rest;
        assert forall|k: int| 0 <= k < all.len() implies a <= (#[trigger] all[k]).0 < all[k].1
            <= s.len() by {
            if k >= head.len() {
                assert(all[k] == rest[k - head.len()]);
            }
        }
        assert forall|j: int, k: int| 0 <= j < k < all.len() implies (#[trigger] all[j]).1 <= (
        #[trigger] all[k]).0 by {
            assert(all[k] == rest[k - head.len()]);
            if j >= head.len() {
                assert(all[j] == rest[j - head.len()]);
            }
        }
    } else {
        lemma_found_in_order(s, a, i + 1);
    }
}

/// The components of a path lie in order within it.
pub proof fn lemma_components_ordered(s: Seq<char>)
    ensures
        ordered(components(s), 0, s.len() as int),
{
    if has_root(s) {
        lemma_found_in_order(s, 1, 1);
        let rest = components_from(s, 1, 1);
        let all = components(s);
        assert forall|k: int| 0 <= k < all.len() implies 0 <= (#[trigger] all[k]).0 < all[k].1
            <= s.len() by {
            if k >= 1 {
                assert(all[k] == rest[k - 1]);
            }
        }
        assert forall|j: int, k: int| 0 <= j < k < all.len() implies (#[trigger] all[j]).1 <= (
        #[trigger] all[k]).0 by {
            assert(all[k] == rest[k - 1]);
            if j >= 1 {
                assert(all[j] == rest[j - 1]);
            }
        }
    } else {
        lemma_found_in_order(s, 0, 0);
    }
}

/// Where no separator is left to read, the piece being read is the
/// last.
pub proof fn lemma_last_piece(s: Seq<char>, a: int, i: int)
    requires
        0 <= a <= i <= s.len(),
        forall|j: int| i <= j < s.len() ==> s[j] != '/',
    ensures
        components_from(s, a, i) == piece(s, a, s.len() as int),
    decreases s.len() - i,
{
    if i < s.len() {
        lemma_last_piece(s, a, i + 1);
    }
}

/// The piece that begins at `a` and runs to the end of the path is the
/// last of the components found, from wherever before it the reading
/// starts.
pub proof fn lemma_found_ends_with(s: Seq<char>, from: int, i: int, a: int)
    requires
        0 <= from <= i <= s.len(),
        0 <= a <= s.len(),
        forall|j: int| a <= j < s.len() ==> s[j] != '/',
        is_component(s, a, s.len() as int),
        (from == a && a <= i) || (i < a && s[a - 1] == '/'),
    ensures
        components_from(s, from, i).len() > 0,
        components_from(s, from, i).last() == (a, s.len() as int),
    decreases s.len() - i,
{
    if from == a && a <= i {
        lemma_last_piece(s, a, i);
    } else if s[i] == '/' {
        lemma_found_ends_with(s, i + 1, i + 1, a);
    } else {
        lemma_found_ends_with(s, from, i + 1, a);
    }
}

/// A plain piece `x` put after `head`, which is empty or ends with a
/// separator, is the last component of the path so made.
pub proof fn lemma_last_component(head: Seq<char>, x: Seq<char>)
    requires
        head.len() == 0 || head.last() == '/',
        is_plain_piece(x),
    ensures
        components(head + x).len() > 0,
        components(head + x).last() == (head.len() as int, (head + x).len() as int),
        names(head + x).last() == x,
        !(components(head + x).len() == 1 && has_root(head + x)),
{
    let s = head + x;
    let a = head.len() as int;
    assert forall|j: int| a <= j < s.len() implies s[j] != '/' by {
        assert(s[j] == x[j - a]);
    }
    assert(is_component(s, a, s.len() as int)) by {
        if s.len() == a + 1 {
            assert(s[a] == x[0]);
            assert(x =~= seq![x[0]]);
        }
    }
    if has_root(s) {
        assert(a >= 1) by {
            if a == 0 {
                assert(s[0] == x[0]);
            }
        }
        lemma_found_ends_with(s, 1, 1, a);
        assert(components(s).last() == components_from(s, 1, 1).last());
    } else {
        lemma_found_ends_with(s, 0, 0, a);
    }
    assert(s.subrange(a, s.len() as int) =~= x);
}

/// Every component found by `components_from` is a piece without a
/// separator in it, and none but one at the very beginning of the path
/// is `.`.
pub proof fn lemma_found_are_pieces(s: Seq<char>, a: int, i: int)
    requires
        0 <= a <= i <= s.len(),
        free_of_separators(s, a, i),
    ensures
        forall|k: int|
            0 <= k < components_from(s, a, i).len() ==> is_component(
                s,
                (#[trigger] components_from(s, a, i)[k]).0,
                components_from(s, a, i)[k].1,
            ) && free_of_separators(s, components_from(s, a, i)[k].0, components_from(s, a, i)[k].1),
    decreases s.len() - i,
{
    if i >= s.len() {
        assert(components_from(s, a, i) == piece(s, a, s.len() as int));
    } else if s[i] == '/' {
        lemma_found_are_pieces(s, i + 1, i + 1);
        let head = piece(s, a, i);
        let rest = components_from(s, i + 1, i + 1);
        let all = head + rest;
        assert forall|k: int| 0 <= k < all.len() implies is_component(
            s,
            (#[trigger] all[k]).0,
            all[k].1,
        ) && free_of_separators(s, all[k].0, all[k].1) by {
            if k >= head.len() {
                assert(all[k] == rest[k - head.len()]);
            } else {
                assert(all[k] == head[k]);
                assert(head[k] == (a, i));
            }
        }
        assert(components_from(s, a, i) == all);
    } else {
        lemma_found_are_pieces(s, a, i + 1);
        assert(components_from(s, a, i) == components_from(s, a, i + 1));
    }
}

/// Every component of a path after the first is a plain piece.
pub proof fn lemma_later_names_are_plain(s: Seq<char>, k: int)
    requires
        1 <= k < components(s).len(),
    ensures
        is_plain_piece(names(s)[k]),
{
    lemma_components_ordered(s);
    let c = components(s)[k];
    let first = components(s)[0];
    assert(first.1 <= c.0);
    if has_root(s) {
        lemma_found_are_pieces(s, 1, 1);
        assert(c == components_from(s, 1, 1)[k - 1]);
    } else {
        lemma_found_are_pieces(s, 0, 0);
    }
    let x = s.subrange(c.0, c.1);
    assert(is_component(s, c.0, c.1) && free_of_separators(s, c.0, c.1));
    assert forall|j: int| 0 <= j < x.len() implies x[j] != '/' by {
        assert(x[j] == s[c.0 + j]);
    }
    if x == seq!['.'] {
        assert(x[0] == '.');
        assert(s[c.0] == x[0]);
    }
}

/// Text without a separator, put at the end of a path whose last
/// component reaches its end, makes that component longer and changes
/// nothing else.
pub proof fn lemma_found_extended(q: Seq<char>, t: Seq<char>, a: int, i: int)
    requires
        0 <= a <= i <= q.len(),
        forall|j: int| a <= j < i ==> q[j] != '/',
        t.len() > 0,
        forall|j: int| 0 <= j < t.len() ==> t[j] != '/',
        components_from(q, a, i).len() > 0,
        components_from(q, a, i).last().1 == q.len(),
    ensures
        components_from(q + t, a, i).len() == components_from(q, a, i).len(),
        components_from(q + t, a, i).drop_last() == components_from(q, a, i).drop_last(),
        components_from(q + t, a, i).last() == (components_from(q, a, i).last().0, (q + t).len() as int),
    decreases q.len() - i,
{
    let s = q + t;
    if i >= q.len() {
        assert forall|j: int| i <= j < s.len() implies s[j] != '/' by {
            assert(s[j] == t[j - q.len()]);
        }
        lemma_last_piece(s, a, i);
        assert(is_component(s, a, s.len() as int));
        assert(components_from(s, a, i).drop_last() =~= components_from(q, a, i).drop_last());
    } else {
        assert(s[i] == q[i]);
        if q[i] == '/' {
            let head = piece(q, a, i);
            let rest = components_from(q, i + 1, i + 1);
            assert(piece(s, a, i) == head) by {
                if a < i {
                    assert(s[a] == q[a]);
                }
            }
            assert(rest.len() > 0 && rest.last().1 == q.len()) by {
                if rest.len() == 0 {
                    assert(head + rest =~= head);
                } else {
                    assert((head + rest).last() == rest.last());
                }
            }
            lemma_found_extended(q, t, i + 1, i + 1);
            let more = components_from(s, i + 1, i + 1);
            assert((head + more).drop_last() =~= head + more.drop_last());
            assert((head + rest).drop_last() =~= head + rest.drop_last());
            assert((head + more).last() == more.last());
            assert((head + rest).last() == rest.last());
        } else {
            lemma_found_extended(q, t, a, i + 1);
        }
    }
}

/// Text without a separator, put at the end of a path whose last
/// component is a piece that reaches its end, becomes part of that
/// component's name; the other names stay.
pub proof fn lemma_names_extended(q: Seq<char>, t: Seq<char>)
    requires
        t.len() > 0,
        forall|j: int| 0 <= j < t.len() ==> t[j] != '/',
        components(q).len() > 0,
        components(q).last().1 == q.len(),
        !(components(q).len() == 1 && has_root(q)),
    ensures
        names(q + t).len() == names(q).len(),
        names(q + t).drop_last() == names(q).drop_last(),
        names(q + t).last() == names(q).last() + t,
{
    let s = q + t;
    lemma_components_ordered(q);
    let c = components(q);
    let n = c.len() as int;
    if has_root(q) {
        assert(s[0] == q[0]);
        let inner = components_from(q, 1, 1);
        assert(c.last() == inner.last());
        lemma_found_extended(q, t, 1, 1);
        let more = components_from(s, 1, 1);
        assert(components(s) =~= seq![(0int, 1int)] + more);
        assert(components(s).drop_last() =~= c.drop_last()) by {
            assert((seq![(0int, 1int)] + more).drop_last() =~= seq![(0int, 1int)]
                + more.drop_last());
            assert((seq![(0int, 1int)] + inner).drop_last() =~= seq![(0int, 1int)]
                + inner.drop_last());
        }
        assert(components(s).last() == more.last());
    } else {
        if q.len() > 0 {
            assert(s[0] == q[0]);
        }
        lemma_found_extended(q, t, 0, 0);
    }
    let e = components(s);
    assert(e.len() == n);
    assert(e.last() == (c.last().0, s.len() as int));
    assert forall|k: int| 0 <= k < n - 1 implies names(s)[k] == names(q)[k] by {
        assert(e[k] == e.drop_last()[k]);
        assert(c[k] == c.drop_last()[k]);
        assert(c[k].1 <= c[n - 1].0);
        assert(s.subrange(c[k].0, c[k].1) =~= q.subrange(c[k].0, c[k].1));
    }
    assert(names(s).drop_last() =~= names(q).drop_last());
    assert(s.subrange(c.last().0, s.len() as int) =~= q.subrange(c.last().0, q.len() as int) + t);
}

/// A separator at the end of what is being read adds no component.
pub proof fn lemma_found_before_separator(q: Seq<char>, a: int, i: int)
    requires
        0 <= a <= i <= q.len(),
    ensures
        components_from(q.push('/'), a, i) == components_from(q, a, i),
    decreases q.len() - i,
{
    let s = q.push('/');
    if i >= q.len() {
        assert(s[i] == '/');
        assert(piece(s, a, i) == piece(q, a, i)) by {
            if a < i {
                assert(s[a] == q[a]);
            }
        }
        assert(components_from(s, i + 1, i + 1) == Seq::<(int, int)>::empty());
        assert(piece(q, a, i) + Seq::<(int, int)>::empty() =~= piece(q, a, i));
    } else {
        assert(s[i] == q[i]);
        if q[i] == '/' {
            lemma_found_before_separator(q, i + 1, i + 1);
            assert(piece(s, a, i) == piece(q, a, i)) by {
                if a < i {
                    assert(s[a] == q[a]);
                }
            }
        } else {
            lemma_found_before_separator(q, a, i + 1);
        }
    }
}

/// A separator put at the end of a path that is not empty changes none
/// of its components.
pub proof fn lemma_separator_adds_nothing(q: Seq<char>)
    requires
        q.len() > 0,
    ensures
        components(q.push('/')) == components(q),
        names(q.push('/')) == names(q),
{
    let s = q.push('/');
    assert(s[0] == q[0]);
    if has_root(q) {
        lemma_found_before_separator(q, 1, 1);
    } else {
        lemma_found_before_separator(q, 0, 0);
    }
    lemma_components_ordered(q);
    let c = components(q);
    assert forall|k: int| 0 <= k < c.len() implies names(s)[k] == names(q)[k] by {
        assert(s.subrange(c[k].0, c[k].1) =~= q.subrange(c[k].0, c[k].1));
    }
    assert(names(s) =~= names(q));
}

/// A plain piece put after what ends with a separator is one more
/// component, found after those that were there.
pub proof fn lemma_found_with_piece(head: Seq<char>, x: Seq<char>, a: int, i: int)
    requires
        0 <= a <= i <= head.len(),
        head.len() > 0,
        head.last() == '/',
        is_plain_piece(x),
        free_of_separators(head, a, i),
    ensures
        components_from(head + x, a, i) == components_from(head, a, i).push(
            (head.len() as int, (head + x).len() as int),
        ),
    decreases head.len() - i,
{
    let s = head + x;
    let n = head.len() as int;
    if i >= n {
        assert(a == n) by {
            if a < n {
                assert(head[n - 1] != '/');
            }
        }
        assert forall|j: int| n <= j < s.len() implies s[j] != '/' by {
            assert(s[j] == x[j - n]);
        }
        lemma_last_piece(s, n, n);
        assert(is_component(s, n, s.len() as int)) by {
            if s.len() == n + 1 {
                assert(s[n] == x[0]);
                assert(x =~= seq![x[0]]);
            }
        }
        assert(components_from(head, n, n) =~= Seq::<(int, int)>::empty());
        assert(components_from(s, n, n) =~= Seq::<(int, int)>::empty().push(
            (n, s.len() as int),
        ));
    } else {
        assert(s[i] == head[i]);
        if head[i] == '/' {
            lemma_found_with_piece(head, x, i + 1, i + 1);
            assert(piece(s, a, i) == piece(head, a, i)) by {
                if a < i {
                    assert(s[a] == head[a]);
                }
            }
            let first = piece(head, a, i);
            let rest = components_from(head, i + 1, i + 1);
            let last = (n, s.len() as int);
            assert(first + rest.push(last) =~= (first + rest).push(last));
        } else {
            lemma_found_with_piece(head, x, a, i + 1);
        }
    }
}

/// A plain piece put after a path that ends with a separator is one more
/// component of it, and the last.
pub proof fn lemma_piece_adds_component(head: Seq<char>, x: Seq<char>)
    requires
        head.len() > 0,
        head.last() == '/',
        is_plain_piece(x),
    ensures
        components(head + x) == components(head).push((head.len() as int, (head + x).len() as int)),
        names(head + x) == names(head).push(x),
{
    let s = head + x;
    let last = (head.len() as int, s.len() as int);
    assert(s[0] == head[0]);
    if has_root(head) {
        lemma_found_with_piece(head, x, 1, 1);
        let inner = components_from(head, 1, 1);
        assert(seq![(0int, 1int)] + inner.push(last) =~= (seq![(0int, 1int)] + inner).push(last));
    } else {
        lemma_found_with_piece(head, x, 0, 0);
    }
    lemma_components_ordered(head);
    let c = components(head);
    assert forall|k: int| 0 <= k < c.len() implies names(s)[k] == names(head)[k] by {
        assert(components(s)[k] == c[k]);
        assert(s.subrange(c[k].0, c[k].1) =~= head.subrange(c[k].0, c[k].1));
    }
    assert(s.subrange(last.0, last.1) =~= x);
    assert(names(s) =~= names(head).push(x));
}

/// The components of `/a/b/c` are the root, `a`, `b` and `c`.
pub proof fn lemma_names_of_trail(segs: Seq<Seq<char>>)
    requires
        segs.len() > 0,
        all_plain(segs),
    ensures
        names(trail(segs)) == seq![seq!['/']] + segs,
    decreases segs.len(),
{
    let init = segs.drop_last();
    let x = segs.last();
    assert(is_plain_piece(x));
    let head = trail(init).push('/');
    assert(trail(segs) == head + x);
    if init.len() == 0 {
        assert(head =~= seq!['/']);
        assert(components_from(head, 1, 1) =~= Seq::<(int, int)>::empty());
        assert(components(head) =~= seq![(0int, 1int)]);
        assert(names(head) =~= seq![seq!['/']]) by {
            assert(head.subrange(0, 1) =~= seq!['/']);
        }
        lemma_piece_adds_component(head, x);
        assert(seq![seq!['/']].push(x) =~= seq![seq!['/']] + segs);
    } else {
        assert(all_plain(init)) by {
            assert forall|k: int| 0 <= k < init.len() implies is_plain_piece(
                #[trigger] init[k],
            ) by {
                assert(init[k] == segs[k]);
            }
        }
        lemma_names_of_trail(init);
        assert(trail(init).len() > 0) by {
            assert(trail(init) == trail(init.drop_last()).push('/') + init.last());
        }
        lemma_separator_adds_nothing(trail(init));
        lemma_piece_adds_component(head, x);
        assert((seq![seq!['/']] + init).push(x) =~= seq![seq!['/']] + segs);
    }
}

/// Plain pieces appended in turn to a path that is not empty and does
/// not end with a separator each go behind a separator of their own.
pub proof fn lemma_pushed_all_plain(buf: Seq<char>, segs: Seq<Seq<char>>)
    requires
        buf.len() > 0,
        buf.last() != '/',
        all_plain(segs),
    ensures
        pushed_all(buf, segs) == buf + trail(segs),
        (buf + trail(segs)).last() != '/',
    decreases segs.len(),
{
    if segs.len() == 0 {
        assert(buf + trail(segs) =~= buf);
    } else {
        let init = segs.drop_last();
        let x = segs.last();
        assert(is_plain_piece(x));
        assert(all_plain(init)) by {
            assert forall|k: int| 0 <= k < init.len() implies is_plain_piece(
                #[trigger] init[k],
            ) by {
                assert(init[k] == segs[k]);
            }
        }
        lemma_pushed_all_plain(buf, init);
        let before = buf + trail(init);
        assert(!has_root(x)) by {
            assert(x[0] != '/');
        }
        assert(before.push('/') + x =~= buf + trail(segs));
        assert((buf + trail(segs)).last() == x.last());
        assert(x[x.len() - 1] != '/');
    }
}

} // verus!
