//! Where a repository goes on disk.
//!
//! The place is worked out from the root directory and the repository's
//! canonical URL alone; nothing is looked up on disk.

use crate::config::Config;
use crate::error::Error;
use crate::locator::CanonicalUrl;
use crate::path::{
    all_plain, component_spans, components, has_extension, has_root, is_entry_name,
    is_plain_piece, lemma_last_component, lemma_last_piece, lemma_later_names_are_plain,
    lemma_names_extended, lemma_names_of_trail, lemma_piece_adds_component,
    lemma_pushed_all_plain, lemma_separator_adds_nothing, names, ordered, parent, pop_last,
    popped, push_piece, pushed, pushed_all, ranges, strip_extension, trail, without_extension,
};
use crate::text::{chars_of, string_of};
use vstd::prelude::*;

verus! {

/// The extension that a repository's name may carry and its directory
/// does not.
pub open spec fn vcs_extension() -> Seq<char> {
    seq!['g', 'i', 't']
}

/// All components but the first.
pub open spec fn after_first(parts: Seq<Seq<char>>) -> Seq<Seq<char>> {
    if parts.len() == 0 {
        parts
    } else {
        parts.drop_first()
    }
}

/// Where a repository goes: under `root`, in the directory named after
/// the URL's host, along the components of the URL's path but the first
/// (the root of that path); the last component gives way to `name` where
/// one is given, and a `git` extension of the final name is dropped.
pub open spec fn destination(
    root: Seq<char>,
    host: Seq<char>,
    url_path: Seq<char>,
    name: Option<Seq<char>>,
) -> Seq<char> {
    let whole = pushed_all(pushed(root, host), after_first(names(url_path)));
    let renamed = match name {
        Some(n) => pushed(popped(whole), n),
        None => whole,
    };
    without_extension(renamed, vcs_extension())
}

/// Of a URL path that begins with a separator only the root is left
/// out of the place: every component after it is appended.
pub proof fn lemma_only_the_root_is_left_out(url_path: Seq<char>)
    requires
        has_root(url_path),
    ensures
        names(url_path) == seq![seq!['/']] + after_first(names(url_path)),
{
    assert(url_path.subrange(0, 1) =~= seq!['/']);
    assert(names(url_path)[0] == seq!['/']);
    assert(names(url_path) =~= seq![seq!['/']] + after_first(names(url_path)));
}

/// The name given in place of a repository's own, as plain text.
pub open spec fn name_text(name: Option<&str>) -> Option<Seq<char>> {
    match name {
        Some(n) => Some(n@),
        None => None,
    }
}

/// Works out where a repository goes, from the root directory, the host
/// and path of its URL, and the name to give it instead of its own.
pub fn destination_of(root: &str, host: &str, url_path: &str, name: Option<&str>) -> (r: String)
    ensures
        r@ == destination(root@, host@, url_path@, name_text(name)),
{
    let mut buf = chars_of(root);
    let h = chars_of(host);
    push_piece(&mut buf, &h, 0, h.len());
    assert(h@.subrange(0, h.len() as int) =~= h@);
    let p = chars_of(url_path);
    let spans = component_spans(&p);
    let ghost start = buf@;
    let ghost rest = after_first(names(p@));
    let mut k: usize = 1;
    assert(rest.take(0) =~= Seq::<Seq<char>>::empty());
    while k < spans.len()
        invariant
            1 <= k,
            k <= spans.len() || k == 1,
            p@ == url_path@,
            start == pushed(root@, host@),
            ranges(spans@) == components(p@),
            ordered(ranges(spans@), 0, p.len() as int),
            rest == after_first(names(p@)),
            buf@ == pushed_all(start, rest.take(k - 1)),
        decreases spans.len() - k,
    {
        let (a, b) = spans[k];
        assert(ranges(spans@)[k as int] == (a as int, b as int));
        push_piece(&mut buf, &p, a, b);
        proof {
            let upto = rest.take(k as int);
            assert(upto.drop_last() =~= rest.take(k - 1));
            assert(upto.last() == names(p@)[k as int]);
        }
        k = k + 1;
    }
    proof {
        assert(names(p@).len() == spans.len());
        if spans.len() > 0 {
            assert(rest.take(spans.len() - 1) =~= rest);
        } else {
            assert(rest.take(0) =~= rest);
        }
    }
    match name {
        Some(n) => {
            pop_last(&mut buf);
            let nn = chars_of(n);
            push_piece(&mut buf, &nn, 0, nn.len());
            assert(nn@.subrange(0, nn.len() as int) =~= nn@);
        },
        None => {},
    }
    let mut ext: Vec<char> = Vec::new();
    ext.push('g');
    ext.push('i');
    ext.push('t');
    assert(ext@ =~= vcs_extension());
    strip_extension(&mut buf, &ext);
    string_of(&buf)
}

/// Works out where the repository at `uri` goes under the configured
/// root, `name` standing in for its last path component where given.
pub fn destination_path_for(config: &Config, uri: &CanonicalUrl, name: Option<&str>) -> (r: Result<
    String,
    Error,
>)
    requires
        uri@.host is Some,
    ensures
        r matches Ok(path) && path@ == destination(
            config.root@,
            uri@.host->Some_0,
            uri@.path,
            name_text(name),
        ),
{
    let host = uri.host_str().unwrap();
    Ok(destination_of(config.root.as_str(), host, uri.path(), name))
}

/// The extension of a repository's name, with its dot.
pub open spec fn vcs_suffix() -> Seq<char> {
    seq!['.'] + vcs_extension()
}

/// Whether the last component of the URL path `q` is a piece that
/// reaches the end of `q` and, where it counts for the place, does not
/// have the `git` extension already.
pub open spec fn keeps_its_place(q: Seq<char>) -> bool {
    &&& components(q).len() > 0
    &&& components(q).last().1 == q.len()
    &&& !(components(q).len() == 1 && has_root(q))
    &&& components(q).len() >= 2 ==> !has_extension(names(q).last(), vcs_extension())
}

/// A repository goes to the same place whether or not its URL carries
/// the `git` extension: the place of the URL path `q` with `.git` added
/// is the place of `q`. This holds of an empty `q` and of one whose last
/// component is a piece that reaches the end of `q`. It leaves out a `q`
/// whose own last name already has that extension: of two such
/// extensions only one is dropped.
pub proof fn lemma_vcs_suffix_is_stable(root: Seq<char>, host: Seq<char>, q: Seq<char>)
    requires
        q.len() == 0 || keeps_its_place(q),
    ensures
        destination(root, host, q + vcs_suffix(), None) == destination(root, host, q, None),
{
    let t = vcs_suffix();
    let ext = vcs_extension();
    assert(t =~= seq!['.', 'g', 'i', 't']);
    if q.len() == 0 {
        assert(q + t =~= t);
        lemma_last_piece(t, 0, 0);
        assert(after_first(names(t)) =~= after_first(names(q)));
    } else {
        lemma_names_extended(q, t);
        let old_names = names(q);
        let new_names = names(q + t);
        let n = old_names.len() as int;
        let start = pushed(root, host);
        if n == 1 {
            assert(after_first(new_names) =~= after_first(old_names));
        } else {
            let tail = after_first(old_names);
            let new_tail = after_first(new_names);
            let x = old_names.last();
            lemma_later_names_are_plain(q, n - 1);
            assert(new_tail.drop_last() =~= tail.drop_last()) by {
                assert forall|k: int| 0 <= k < n - 2 implies new_tail.drop_last()[k]
                    == tail.drop_last()[k] by {
                    assert(new_names.drop_last()[k + 1] == old_names.drop_last()[k + 1]);
                }
            }
            assert(tail.last() == x);
            assert(new_tail.last() == x + t);
            let before = pushed_all(start, tail.drop_last());
            let head = if before.len() > 0 && before.last() != '/' {
                before.push('/')
            } else {
                before
            };
            let whole = pushed_all(start, tail);
            let new_whole = pushed_all(start, new_tail);
            assert(!has_root(x)) by {
                assert(x[0] != '/');
            }
            assert(!has_root(x + t)) by {
                assert((x + t)[0] == x[0]);
            }
            assert(whole == head + x);
            assert(new_whole == head + (x + t));
            assert(is_plain_piece(x + t)) by {
                assert forall|j: int| 0 <= j < (x + t).len() implies (x + t)[j] != '/' by {
                    if j < x.len() {
                        assert((x + t)[j] == x[j]);
                    } else {
                        assert((x + t)[j] == t[j - x.len()]);
                    }
                }
                assert((x + t).len() >= 5);
            }
            lemma_last_component(head, x);
            lemma_last_component(head, x + t);
            let long = x + t;
            assert(whole.subrange(head.len() as int, whole.len() as int) =~= x);
            assert(new_whole.subrange(head.len() as int, new_whole.len() as int) =~= long);
            assert(is_entry_name(long)) by {
                assert(long.len() >= 5);
            }
            assert(has_extension(long, ext)) by {
                assert(long[long.len() - 4] == t[0]);
                assert(long.subrange(long.len() - 3, long.len() as int) =~= ext);
            }
            assert(new_whole.subrange(0, new_whole.len() - 4) =~= whole);
            assert(without_extension(new_whole, ext) == whole);
            assert(without_extension(whole, ext) == whole);
        }
    }
}

/// A name without its `git` extension.
pub open spec fn stem(name: Seq<char>) -> Seq<char> {
    if has_extension(name, vcs_extension()) {
        name.subrange(0, name.len() - vcs_suffix().len())
    } else {
        name
    }
}

/// The directory in which a repository's own directory lies: `root`,
/// the host, and all segments of the URL path but the last, each behind
/// a separator.
pub open spec fn owner_directory(root: Seq<char>, host: Seq<char>, segs: Seq<Seq<char>>) -> Seq<
    char,
> {
    root.push('/') + host + trail(segs.drop_last())
}

/// What the common case comes to, up to the choice of the last name:
/// the path made so far is the owner's directory, a separator and the
/// last segment, that segment being its last component and the owner's
/// directory its parent.
proof fn lemma_whole_path(root: Seq<char>, host: Seq<char>, segs: Seq<Seq<char>>)
    requires
        root.len() > 0,
        root.last() != '/',
        is_plain_piece(host),
        segs.len() > 0,
        all_plain(segs),
    ensures
        pushed_all(pushed(root, host), after_first(names(trail(segs)))) == owner_directory(
            root,
            host,
            segs,
        ).push('/') + segs.last(),
        popped(owner_directory(root, host, segs).push('/') + segs.last()) == owner_directory(
            root,
            host,
            segs,
        ),
        owner_directory(root, host, segs).len() > 0,
        owner_directory(root, host, segs).last() != '/',
{
    let init = segs.drop_last();
    let x = segs.last();
    assert(is_plain_piece(x));
    assert(all_plain(init)) by {
        assert forall|k: int| 0 <= k < init.len() implies is_plain_piece(#[trigger] init[k]) by {
            assert(init[k] == segs[k]);
        }
    }
    assert(!has_root(host)) by {
        assert(host[0] != '/');
    }
    let start = pushed(root, host);
    assert(start == root.push('/') + host);
    assert(start.last() == host.last());
    assert(host[host.len() - 1] != '/');
    lemma_names_of_trail(segs);
    assert(after_first(names(trail(segs))) =~= segs);
    lemma_pushed_all_plain(start, segs);
    lemma_pushed_all_plain(start, init);
    let dir = owner_directory(root, host, segs);
    assert(dir == start + trail(init));
    let head = dir.push('/');
    let whole = head + x;
    assert(start + trail(segs) =~= whole);
    if init.len() == 0 {
        assert(dir =~= root.push('/') + host);
        lemma_last_component(root.push('/'), host);
    } else {
        let before = (start + trail(init.drop_last())).push('/');
        assert(dir =~= before + init.last());
        assert(is_plain_piece(init.last())) by {
            assert(init.last() == init[init.len() - 1]);
        }
        lemma_last_component(before, init.last());
    }
    lemma_separator_adds_nothing(dir);
    lemma_piece_adds_component(head, x);
    let c = components(whole);
    assert(c.len() >= 2);
    assert(c[c.len() - 2] == components(dir).last());
    assert(parent(whole) == Some(whole.subrange(0, dir.len() as int)));
    assert(whole.subrange(0, dir.len() as int) =~= dir);
}

/// A path that ends with a separator and a plain piece, with the `git`
/// extension of that piece dropped.
proof fn lemma_stem_of_last(head: Seq<char>, x: Seq<char>)
    requires
        head.len() > 0,
        head.last() == '/',
        is_plain_piece(x),
    ensures
        without_extension(head + x, vcs_extension()) == head + stem(x),
{
    let whole = head + x;
    lemma_last_component(head, x);
    assert(whole.subrange(head.len() as int, whole.len() as int) =~= x);
    assert(vcs_suffix().len() == 4);
    if has_extension(x, vcs_extension()) {
        assert(is_entry_name(x)) by {
            assert(x.len() > 4);
        }
        assert(whole.subrange(0, whole.len() - 4) =~= head + x.subrange(0, x.len() - 4));
    }
}

/// In the common case a repository goes where one expects it: for a
/// root that is not empty and does not end with a separator, and a
/// host and URL path segments that are plain pieces, the place of the
/// URL path `/s1/…/sn` is `root/host/s1/…/sn`, the last segment without
/// its `git` extension.
pub proof fn lemma_place_along_segments(root: Seq<char>, host: Seq<char>, segs: Seq<Seq<char>>)
    requires
        root.len() > 0,
        root.last() != '/',
        is_plain_piece(host),
        segs.len() > 0,
        all_plain(segs),
    ensures
        destination(root, host, trail(segs), None) == owner_directory(root, host, segs).push('/')
            + stem(segs.last()),
{
    lemma_whole_path(root, host, segs);
    assert(is_plain_piece(segs.last()));
    lemma_stem_of_last(owner_directory(root, host, segs).push('/'), segs.last());
}

/// In the common case a name given for the repository takes the place
/// of the last segment of the URL path: the place is
/// `root/host/s1/…/name`, the name without its `git` extension.
pub proof fn lemma_place_with_name(
    root: Seq<char>,
    host: Seq<char>,
    segs: Seq<Seq<char>>,
    name: Seq<char>,
)
    requires
        root.len() > 0,
        root.last() != '/',
        is_plain_piece(host),
        segs.len() > 0,
        all_plain(segs),
        is_plain_piece(name),
    ensures
        destination(root, host, trail(segs), Some(name)) == owner_directory(root, host, segs).push(
            '/',
        ) + stem(name),
{
    lemma_whole_path(root, host, segs);
    let dir = owner_directory(root, host, segs);
    assert(!has_root(name)) by {
        assert(name[0] != '/');
    }
    assert(pushed(dir, name) == dir.push('/') + name);
    lemma_stem_of_last(dir.push('/'), name);
}

} // verus!
