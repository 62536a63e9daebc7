//! Paths as text, with parts between slashes.

use vstd::prelude::*;

verus! {

/// The place of the last `c` in a text, or -1 where there is none.
pub open spec fn last_place_of(text: Seq<char>, c: char) -> int
    decreases text.len(),
{
    if text.len() == 0 {
        -1
    } else if text.last() == c {
        text.len() - 1
    } else {
        last_place_of(text.drop_last(), c)
    }
}

/// The last place of a character holds it, and no later place does.
pub proof fn lemma_last_place(text: Seq<char>, c: char)
    ensures
        -1 <= last_place_of(text, c) < text.len(),
        last_place_of(text, c) >= 0 ==> text[last_place_of(text, c)] == c,
        forall|i: int| last_place_of(text, c) < i < text.len() ==> text[i] != c,
    decreases text.len(),
{
    if text.len() > 0 && text.last() != c {
        lemma_last_place(text.drop_last(), c);
        assert forall|i: int| last_place_of(text, c) < i < text.len() implies text[i] != c by {
            if i < text.len() - 1 {
                assert(text.drop_last()[i] == text[i]);
            }
        }
    }
}

/// The place of the last `c` in a text.
pub fn last_place(text: &str, c: char) -> (r: Option<usize>)
    ensures
        match r {
            Some(i) => i == last_place_of(text@, c),
            None => last_place_of(text@, c) == -1,
        },
{
    let len = text.unicode_len();
    let mut r: Option<usize> = None;
    let mut i: usize = 0;
    assert(text@.take(0) =~= Seq::<char>::empty());
    for x in it: text.chars()
        invariant
            i == it.index(),
            it.seq() == text@,
            len == text@.len(),
            match r {
                Some(k) => k == last_place_of(text@.take(i as int), c),
                None => last_place_of(text@.take(i as int), c) == -1,
            },
    {
        assert(text@.take(i + 1).drop_last() =~= text@.take(i as int));
        if x == c {
            r = Some(i);
        }
        i += 1;
    }
    assert(text@.take(i as int) =~= text@);
    r
}

/// Whether a name is one part of a path that leads further down.
pub open spec fn is_plain(name: Seq<char>) -> bool {
    &&& name.len() > 0
    &&& !name.contains('/')
    &&& name != seq!['.']
    &&& name != seq!['.', '.']
}

/// The path of the entry `name` of the directory `base`. An absolute name
/// stands for itself.
pub open spec fn joined(base: Seq<char>, name: Seq<char>) -> Seq<char> {
    if name.len() > 0 && name[0] == '/' {
        name
    } else if base.len() == 0 || base.last() == '/' {
        base + name
    } else {
        base.push('/') + name
    }
}

pub fn join(base: &str, name: &str) -> (r: String)
    ensures
        r@ == joined(base@, name@),
{
    let base_len = base.unicode_len();
    if name.unicode_len() > 0 && name.get_char(0) == '/' {
        return name.to_string();
    }
    let mut r = base.to_string();
    if base_len > 0 && base.get_char(base_len - 1) != '/' {
        r.push('/');
    }
    r.append(name);
    r
}

/// What follows the last slash of a path.
pub open spec fn last_part(path: Seq<char>) -> Seq<char> {
    path.skip(last_place_of(path, '/') + 1)
}

/// Whether a part of a path leads nowhere: nothing between two slashes, or a
/// single dot.
pub open spec fn is_idle(part: Seq<char>) -> bool {
    part.len() == 0 || part == seq!['.']
}

/// A path without the parts at its end that lead nowhere. The slash of the
/// root directory is kept, and a dot that is the whole path.
pub open spec fn trimmed(path: Seq<char>) -> Seq<char>
    decreases path.len(),
{
    let i = last_place_of(path, '/');
    if i < 0 || !is_idle(last_part(path)) {
        path
    } else if i == 0 {
        seq!['/']
    } else {
        proof {
            lemma_last_place(path, '/');
        }
        trimmed(path.take(i))
    }
}

/// A path is no longer when it is trimmed.
pub proof fn lemma_trimmed_len(path: Seq<char>)
    ensures
        trimmed(path).len() <= path.len(),
    decreases path.len(),
{
    lemma_last_place(path, '/');
    let i = last_place_of(path, '/');
    if i > 0 {
        lemma_trimmed_len(path.take(i));
    }
}

/// A path without the parts at its end that lead nowhere.
fn trim(path: &str) -> (r: String)
    ensures
        r@ == trimmed(path@),
{
    let mut t = path.to_string();
    loop
        invariant
            trimmed(t@) == trimmed(path@),
        decreases t@.len(),
    {
        proof {
            lemma_last_place(t@, '/');
        }
        match last_place(t.as_str(), '/') {
            None => {
                return t;
            },
            Some(i) => {
                let len = t.as_str().unicode_len();
                let idle = i + 1 == len || (i + 2 == len && t.as_str().get_char(i + 1) == '.');
                proof {
                    let part = last_part(t@);
                    assert(part.len() == len - i - 1);
                    if part.len() == 1 {
                        assert(part[0] == t@[i + 1]);
                        assert(part[0] == '.' ==> part =~= seq!['.']);
                    }
                    assert(idle == is_idle(part));
                }
                if !idle {
                    return t;
                }
                if i == 0 {
                    let mut r = String::new();
                    r.push('/');
                    assert(r@ =~= seq!['/']);
                    return r;
                }
                t = t.as_str().substring_char(0, i).to_string();
            },
        }
    }
}

/// The directory that a path stands in; the root directory and the empty
/// path stand in none.
pub open spec fn parent_of(path: Seq<char>) -> Option<Seq<char>> {
    let t = trimmed(path);
    let i = last_place_of(t, '/');
    if t.len() == 0 || t == seq!['/'] {
        None
    } else if i < 0 {
        Some(Seq::empty())
    } else if i == 0 {
        Some(seq!['/'])
    } else {
        Some(trimmed(t.take(i)))
    }
}

/// A parent's path is shorter.
pub proof fn lemma_parent_shorter(path: Seq<char>)
    ensures
        parent_of(path) matches Some(p) ==> p.len() < path.len(),
{
    let t = trimmed(path);
    lemma_trimmed_len(path);
    lemma_last_place(t, '/');
    let i = last_place_of(t, '/');
    if t.len() == 1 && i == 0 {
        assert(t =~= seq!['/']);
    }
    if i > 0 {
        lemma_trimmed_len(t.take(i));
    }
}

pub fn parent(path: &str) -> (r: Option<String>)
    ensures
        match r {
            Some(p) => parent_of(path@) == Some(p@),
            None => parent_of(path@) is None,
        },
{
    let t = trim(path);
    let len = t.as_str().unicode_len();
    if len == 0 {
        return None;
    }
    proof {
        lemma_last_place(t@, '/');
    }
    if len == 1 && t.as_str().get_char(0) == '/' {
        assert(t@ =~= seq!['/']);
        return None;
    }
    match last_place(t.as_str(), '/') {
        None => Some(String::new()),
        Some(i) => if i == 0 {
            let mut r = String::new();
            r.push('/');
            assert(r@ =~= seq!['/']);
            Some(r)
        } else {
            Some(trim(t.as_str().substring_char(0, i)))
        },
    }
}

/// The last part of a path, or the path itself where it has none that is a
/// name, as the root directory or one that ends in `..`.
pub open spec fn file_name_of(path: Seq<char>) -> Seq<char> {
    let name = last_part(trimmed(path));
    if is_idle(name) || name == seq!['.', '.'] {
        path
    } else {
        name
    }
}

pub fn file_name(path: &str) -> (r: String)
    ensures
        r@ == file_name_of(path@),
{
    let t = trim(path);
    proof {
        lemma_last_place(t@, '/');
    }
    let len = t.as_str().unicode_len();
    let start = match last_place(t.as_str(), '/') {
        None => 0,
        Some(i) => i + 1,
    };
    let rest = len - start;
    let ghost name = last_part(t@);
    assert(name.len() == rest);
    let nameless = rest == 0 || (rest == 1 && t.as_str().get_char(start) == '.') || (rest == 2
        && t.as_str().get_char(start) == '.' && t.as_str().get_char(start + 1) == '.');
    proof {
        if nameless {
            assert(is_idle(name) || name == seq!['.', '.']) by {
                if rest == 1 {
                    assert(name =~= seq!['.']);
                }
                if rest == 2 {
                    assert(name =~= seq!['.', '.']);
                }
            }
        } else {
            if rest == 1 {
                assert(name[0] == t@[start as int]);
            }
            if rest == 2 {
                assert(name[0] == t@[start as int] && name[1] == t@[start + 1]);
            }
        }
    }
    if nameless {
        path.to_string()
    } else {
        t.as_str().substring_char(start, len).to_string()
    }
}

/// A part of a path that leads somewhere, behind a slash or alone, is not
/// trimmed and is the last part.
proof fn lemma_last_part(path: Seq<char>, part: Seq<char>)
    requires
        !is_idle(part),
        !part.contains('/'),
        part.len() <= path.len(),
        path.skip(path.len() - part.len()) == part,
        part.len() < path.len() ==> path[path.len() - part.len() - 1] == '/',
    ensures
        trimmed(path) == path,
        last_part(path) == part,
        last_place_of(path, '/') == path.len() - part.len() - 1,
{
    let start = path.len() - part.len();
    let place = last_place_of(path, '/');
    lemma_last_place(path, '/');
    if place >= start {
        assert(path[place] == part[place - start]);
        assert(part.contains(part[place - start]));
    }
    assert(place == start - 1);
}

/// What follows the last slash has no slash in it.
proof fn lemma_no_slash(path: Seq<char>)
    ensures
        !last_part(path).contains('/'),
{
    lemma_last_place(path, '/');
    let part = last_part(path);
    if part.contains('/') {
        let k = choose|k: int| 0 <= k < part.len() && part[k] == '/';
        assert(path[last_place_of(path, '/') + 1 + k] == '/');
    }
}

/// A path that is trimmed stays as it is when it is trimmed again.
proof fn lemma_trimmed_twice(path: Seq<char>)
    ensures
        trimmed(trimmed(path)) == trimmed(path),
        trimmed(path).len() == 0 <==> path.len() == 0,
    decreases path.len(),
{
    lemma_last_place(path, '/');
    let i = last_place_of(path, '/');
    if i > 0 && is_idle(last_part(path)) {
        lemma_trimmed_twice(path.take(i));
    } else if i == 0 && is_idle(last_part(path)) {
        lemma_root_trimmed();
    }
}

proof fn lemma_root_trimmed()
    ensures
        last_place_of(seq!['/'], '/') == 0,
        trimmed(seq!['/']) == seq!['/'],
{
    let root = seq!['/'];
    assert(root.last() == '/');
    assert(last_part(root) =~= Seq::<char>::empty());
}

/// A path with single slashes and without parts that lead nowhere. Two paths
/// with the same parts are the same when they are tidied.
pub open spec fn tidied(path: Seq<char>) -> Seq<char>
    decreases path.len(),
{
    let t = trimmed(path);
    let i = last_place_of(t, '/');
    if i <= 0 {
        t
    } else {
        proof {
            lemma_trimmed_len(path);
            lemma_last_place(t, '/');
        }
        joined(tidied(t.take(i)), last_part(t))
    }
}

/// A path with single slashes and without parts that lead nowhere.
pub fn tidy(path: &str) -> (r: String)
    ensures
        r@ == tidied(path@),
    decreases path@.len(),
{
    let t = trim(path);
    proof {
        lemma_trimmed_len(path@);
        lemma_last_place(t@, '/');
    }
    match last_place(t.as_str(), '/') {
        None => t,
        Some(i) => if i == 0 {
            t
        } else {
            let len = t.as_str().unicode_len();
            let above = tidy(t.as_str().substring_char(0, i));
            join(above.as_str(), t.as_str().substring_char(i + 1, len))
        },
    }
}

proof fn lemma_joined_part(base: Seq<char>, part: Seq<char>)
    requires
        !is_idle(part),
        !part.contains('/'),
    ensures
        ({
            let path = joined(base, part);
            &&& trimmed(path) == path
            &&& last_part(path) == part
            &&& last_place_of(path, '/') == path.len() - part.len() - 1
            &&& path == if base.len() == 0 || base.last() == '/' {
                base + part
            } else {
                base.push('/') + part
            }
        }),
{
    assert(part[0] != '/') by {
        assert(part.contains(part[0]));
    }
    let path = joined(base, part);
    assert(path.skip(path.len() - part.len()) =~= part);
    lemma_last_part(path, part);
}

/// How a path is tidied depends on what is left when it is trimmed.
proof fn lemma_tidied_by_trimmed(a: Seq<char>, b: Seq<char>)
    requires
        trimmed(a) == trimmed(b),
    ensures
        tidied(a) == tidied(b),
{
}

/// What is left when a path is trimmed ends in a part that leads somewhere.
proof fn lemma_trimmed_end(path: Seq<char>)
    requires
        last_place_of(trimmed(path), '/') > 0,
    ensures
        !is_idle(last_part(trimmed(path))),
{
    let t = trimmed(path);
    let i = last_place_of(t, '/');
    lemma_trimmed_twice(path);
    lemma_last_place(t, '/');
    lemma_trimmed_len(t.take(i));
}

/// To tidy the path of an entry is to tidy that of its directory.
proof fn lemma_tidied_part(base: Seq<char>, part: Seq<char>)
    requires
        !is_idle(part),
        !part.contains('/'),
    ensures
        tidied(joined(base, part)) == joined(tidied(base), part),
{
    let path = joined(base, part);
    lemma_joined_part(base, part);
    lemma_joined_part(tidied(base), part);
    let i = last_place_of(path, '/');
    if base.len() == 0 {
        assert(last_place_of(base, '/') == -1);
        assert(path =~= part);
    } else if base.last() == '/' {
        assert(path.take(i) =~= base.drop_last());
        assert(last_place_of(base, '/') == base.len() - 1);
        assert(last_part(base) =~= Seq::<char>::empty());
        if i > 0 {
            assert(base.take(i) =~= base.drop_last());
            lemma_tidied_by_trimmed(base, path.take(i));
        } else {
            assert(base =~= seq!['/']);
            lemma_root_trimmed();
        }
    } else {
        assert(path.take(i) =~= base);
    }
}

/// A path that is tidied is trimmed, and stays as it is when it is tidied
/// again.
pub proof fn lemma_tidied(path: Seq<char>)
    ensures
        trimmed(tidied(path)) == tidied(path),
        tidied(tidied(path)) == tidied(path),
        tidied(path).len() == 0 <==> path.len() == 0,
        tidied(path).len() > 1 ==> tidied(path).last() != '/',
    decreases path.len(),
{
    let t = trimmed(path);
    let i = last_place_of(t, '/');
    let r = tidied(path);
    lemma_trimmed_twice(path);
    lemma_trimmed_len(path);
    lemma_last_place(t, '/');
    if i > 0 {
        lemma_tidied(t.take(i));
        lemma_no_slash(t);
        lemma_trimmed_end(path);
        lemma_joined_part(tidied(t.take(i)), last_part(t));
        lemma_tidied_part(tidied(t.take(i)), last_part(t));
    }
    if r.len() > 1 && r.last() == '/' {
        let k = last_place_of(r, '/');
        assert(k == r.len() - 1);
        assert(last_part(r) =~= Seq::<char>::empty());
        lemma_trimmed_len(r.take(k));
    }
}

/// The parent of a tidy path is tidy.
pub proof fn lemma_tidy_parent(path: Seq<char>)
    requires
        tidied(path) == path,
    ensures
        parent_of(path) matches Some(parent) ==> tidied(parent) == parent,
{
    lemma_tidied(path);
    lemma_last_place(path, '/');
    let i = last_place_of(path, '/');
    if i > 0 {
        let above = tidied(path.take(i));
        lemma_tidied(path.take(i));
        lemma_no_slash(path);
        lemma_trimmed_end(path);
        lemma_joined_part(above, last_part(path));
        assert(path.take(i) =~= above) by {
            if above.last() == '/' {
                assert(above =~= seq!['/']);
            }
        }
    } else {
        lemma_root_trimmed();
        assert(last_place_of(Seq::<char>::empty(), '/') == -1);
    }
}

/// The path of an entry, tidied: it is that of its directory and the name, the
/// directory is its parent, and its last part is the name.
pub proof fn lemma_tidy_entry(base: Seq<char>, name: Seq<char>)
    requires
        is_plain(name),
    ensures
        tidied(joined(base, name)) == joined(tidied(base), name),
        parent_of(joined(tidied(base), name)) == Some(tidied(base)),
        file_name_of(joined(base, name)) == name,
        file_name_of(joined(tidied(base), name)) == name,
{
    let above = tidied(base);
    let path = joined(above, name);
    lemma_tidied_part(base, name);
    lemma_tidied(base);
    lemma_joined_part(base, name);
    lemma_joined_part(above, name);
    let i = last_place_of(path, '/');
    if above.len() == 0 {
        assert(i == -1);
        assert(above =~= Seq::<char>::empty());
    } else if above.last() == '/' {
        assert(above =~= seq!['/']);
        assert(path.len() > 1);
    } else {
        assert(path.take(i) =~= above);
    }
}

/// Whether `path` can be cut to `max_len` bytes: the cut does not fall inside
/// a character.
pub open spec fn can_be_cut(path: Seq<char>, max_len: nat) -> bool {
    let bytes = vstd::utf8::encode_utf8(path);
    bytes.len() > max_len && max_len > 3 ==> vstd::utf8::is_char_boundary(
        bytes,
        bytes.len() - (max_len - 3),
    )
}

/// A path cut to `max_len` bytes: what does not fit is cut off in front, and
/// three dots stand for it.
pub open spec fn cut_path(path: Seq<char>, max_len: nat) -> Seq<char> {
    let bytes = vstd::utf8::encode_utf8(path);
    if bytes.len() <= max_len {
        path
    } else if max_len > 3 {
        "..."@ + vstd::utf8::decode_utf8(bytes.skip(bytes.len() - (max_len - 3)))
    } else {
        "..."@
    }
}

/// Whether [`truncate_path`] can cut this path.
pub fn is_cuttable(path: &str, max_len: usize) -> (r: bool)
    ensures
        r == can_be_cut(path@, max_len as nat),
{
    let len = path.as_bytes().len();
    if len > max_len && max_len > 3 {
        path.is_char_boundary(len - (max_len - 3))
    } else {
        true
    }
}

/// Shortens a path for display.
pub fn truncate_path(path: &str, max_len: usize) -> (r: String)
    requires
        can_be_cut(path@, max_len as nat),
    ensures
        r@ == cut_path(path@, max_len as nat),
{
    let len = path.as_bytes().len();
    if len <= max_len {
        path.to_string()
    } else if max_len > 3 {
        let parts = path.split_at(len - (max_len - 3));
        proof {
            vstd::utf8::encode_utf8_decode_utf8(parts.1@);
        }
        "...".to_string().concat(parts.1)
    } else {
        "...".to_string()
    }
}

/// Below the limit a path is shown whole; above it, and where there is room
/// for more than the dots, exactly `max_len` bytes are shown.
pub proof fn cut_path_fits(path: Seq<char>, max_len: nat)
    requires
        can_be_cut(path, max_len),
        max_len >= 3,
    ensures
        vstd::utf8::encode_utf8(cut_path(path, max_len)).len() <= max_len,
        vstd::utf8::encode_utf8(path).len() > max_len ==> vstd::utf8::encode_utf8(
            cut_path(path, max_len),
        ).len() == max_len,
{
    let bytes = vstd::utf8::encode_utf8(path);
    reveal_strlit("...");
    if bytes.len() > max_len {
        let tail = if max_len > 3 {
            bytes.skip(bytes.len() - (max_len - 3))
        } else {
            Seq::empty()
        };
        vstd::utf8::encode_utf8_valid_utf8(path);
        if max_len > 3 {
            vstd::utf8::valid_utf8_split(bytes, bytes.len() - (max_len - 3));
            assert(tail =~= bytes.subrange(bytes.len() - (max_len - 3), bytes.len() as int));
            vstd::utf8::decode_utf8_encode_utf8(tail);
        } else {
            assert(vstd::utf8::decode_utf8(tail) =~= Seq::<char>::empty());
        }
        lemma_dots_encoded(vstd::utf8::decode_utf8(tail));
        assert(cut_path(path, max_len) =~= "..."@ + vstd::utf8::decode_utf8(tail));
    }
}

proof fn lemma_dots_encoded(rest: Seq<char>)
    ensures
        vstd::utf8::encode_utf8("..."@ + rest).len() == 3 + vstd::utf8::encode_utf8(rest).len(),
{
    reveal_strlit("...");
    let s = "..."@ + rest;
    let s1 = s.drop_first();
    let s2 = s1.drop_first();
    assert(s2.drop_first() =~= rest);
    assert(s[0] == '.' && s1[0] == '.' && s2[0] == '.');
    assert(vstd::utf8::encode_scalar('.' as u32).len() == 1);
    reveal_with_fuel(vstd::utf8::encode_utf8, 4);
}

/// The path of an entry is that of its directory and its name, with one slash
/// between them; none is added where the directory's path ends with one already, or
/// is empty. An absolute name stands for itself.
pub proof fn joining_puts_one_slash_between(base: Seq<char>, name: Seq<char>)
    ensures
        ({
            let path = joined(base, name);
            &&& name.len() > 0 && name[0] == '/' ==> path == name
            &&& name.len() == 0 || name[0] != '/' ==> {
                &&& base.is_prefix_of(path)
                &&& name.len() <= path.len()
                &&& path.skip(path.len() - name.len()) == name
                &&& base.len() == 0 || base.last() == '/' ==> path.len() == base.len() + name.len()
                &&& base.len() > 0 && base.last() != '/' ==> path.len() == base.len() + 1
                    + name.len() && path[base.len() as int] == '/'
            }
        }),
{
    let path = joined(base, name);
    if !(name.len() > 0 && name[0] == '/') {
        assert(path.take(base.len() as int) =~= base);
        assert(path.skip(path.len() - name.len()) =~= name);
    }
}

/// What is left of a path that is cut is its end, behind three dots; a path that
/// fits is not cut.
pub proof fn cut_paths_keep_their_end(path: Seq<char>, max_len: nat)
    requires
        can_be_cut(path, max_len),
    ensures
        ({
            let bytes = vstd::utf8::encode_utf8(path);
            let shown = cut_path(path, max_len);
            &&& bytes.len() <= max_len ==> shown == path
            &&& bytes.len() > max_len ==> shown.len() >= 3 && shown.take(3) == seq!['.', '.', '.']
            &&& bytes.len() > max_len && max_len > 3 ==> vstd::utf8::encode_utf8(shown.skip(3))
                == bytes.skip(bytes.len() - (max_len - 3))
            &&& bytes.len() > max_len && max_len <= 3 ==> shown.len() == 3
        }),
{
    let bytes = vstd::utf8::encode_utf8(path);
    reveal_strlit("...");
    let shown = cut_path(path, max_len);
    if bytes.len() > max_len {
        assert(shown.take(3) =~= seq!['.', '.', '.']);
        if max_len > 3 {
            let tail = bytes.skip(bytes.len() - (max_len - 3));
            vstd::utf8::encode_utf8_valid_utf8(path);
            vstd::utf8::valid_utf8_split(bytes, bytes.len() - (max_len - 3));
            assert(tail =~= bytes.subrange(bytes.len() - (max_len - 3), bytes.len() as int));
            vstd::utf8::decode_utf8_encode_utf8(tail);
            assert(shown.skip(3) =~= vstd::utf8::decode_utf8(tail));
        }
    }
}

/// A slash, or a slash and a dot, behind a path lead nowhere: the directory that it
/// stands in is the same.
pub proof fn trailing_slashes_lead_nowhere(path: Seq<char>)
    requires
        path.len() > 0,
    ensures
        trimmed(path.push('/')) == trimmed(path),
        trimmed(path.push('/').push('.')) == trimmed(path),
        parent_of(path.push('/')) == parent_of(path),
        parent_of(path.push('/').push('.')) == parent_of(path),
{
    let slashed = path.push('/');
    let dotted = slashed.push('.');
    assert(slashed.last() == '/');
    assert(last_place_of(slashed, '/') == path.len());
    assert(last_part(slashed) =~= Seq::<char>::empty());
    assert(slashed.take(path.len() as int) =~= path);
    assert(dotted.last() == '.');
    assert(dotted.drop_last() =~= slashed);
    assert(last_place_of(dotted, '/') == path.len());
    assert(last_part(dotted) =~= seq!['.']);
    assert(dotted.take(path.len() as int) =~= path);
}

/// A path that fits, or of which nothing but dots would be left, can be cut.
pub proof fn short_paths_can_be_cut(path: Seq<char>, max_len: nat)
    requires
        vstd::utf8::encode_utf8(path).len() <= max_len || max_len <= 3,
    ensures
        can_be_cut(path, max_len),
{
}

/// However many slashes, or slashes and dots, stand between a directory and the name
/// of an entry or behind it, the tidy path is the same, and the name is the last part.
pub proof fn idle_parts_change_no_place(base: Seq<char>, name: Seq<char>)
    requires
        base.len() > 0,
        is_plain(name),
    ensures
        tidied(base.push('/')) == tidied(base),
        tidied(base.push('/').push('.')) == tidied(base),
        tidied(base.push('/').push('/') + name) == tidied(base.push('/') + name),
        tidied(base.push('/').push('.').push('/') + name) == tidied(base.push('/') + name),
        file_name_of(joined(base, name).push('/')) == name,
        file_name_of(joined(base, name).push('/').push('.')) == name,
{
    let slashed = base.push('/');
    let dotted = slashed.push('.');
    assert(name[0] != '/') by {
        assert(name.contains(name[0]));
    }
    trailing_slashes_lead_nowhere(base);
    trailing_slashes_lead_nowhere(slashed);
    trailing_slashes_lead_nowhere(dotted);
    lemma_tidied_by_trimmed(slashed, base);
    lemma_tidied_by_trimmed(dotted, base);
    lemma_tidied_by_trimmed(slashed.push('/'), base);
    lemma_tidied_by_trimmed(dotted.push('/'), base);
    lemma_tidied_part(slashed, name);
    lemma_tidied_part(slashed.push('/'), name);
    lemma_tidied_part(dotted.push('/'), name);
    assert(slashed.last() == '/' && slashed.push('/').last() == '/' && dotted.push('/').last()
        == '/');
    lemma_joined_part(base, name);
    trailing_slashes_lead_nowhere(joined(base, name));
}

} // verus!
