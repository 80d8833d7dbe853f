//! Path resolution for the tools: `@` prefixes are stripped, Unicode spaces become plain
//! spaces, `~` is the sandbox home, and relative paths resolve against the working directory.

use crate::strings;
use crate::strings::{chars_of, is_at, pieces_of, same_chars, text_of};
use vstd::prelude::*;

verus! {

/// Spaces that a path is rarely meant to hold.
pub open spec fn is_odd_space(c: char) -> bool {
    ||| c == '\u{00A0}'
    ||| c == '\u{1680}'
    ||| '\u{2000}' <= c <= '\u{200A}'
    ||| c == '\u{202F}'
    ||| c == '\u{205F}'
    ||| c == '\u{3000}'
}

fn is_unicode_space(c: char) -> (odd: bool)
    ensures
        odd == is_odd_space(c),
{
    c == '\u{00A0}' || c == '\u{1680}' || ('\u{2000}' <= c && c <= '\u{200A}') || c == '\u{202F}' || c
        == '\u{205F}' || c == '\u{3000}'
}

pub open spec fn plain_spaces(input: Seq<char>) -> Seq<char> {
    input.map_values(
        |c: char|
            if is_odd_space(c) {
                ' '
            } else {
                c
            },
    )
}

/// `text` without `prefix`, where it begins with it.
pub open spec fn without_prefix(text: Seq<char>, prefix: Seq<char>) -> Seq<char> {
    if strings::stands_at(text, prefix, 0) {
        text.skip(prefix.len() as int)
    } else {
        text
    }
}

/// `~` and what stands below it, in terms of the home directory.
pub open spec fn expanded(path: Seq<char>, home: Seq<char>) -> Seq<char> {
    if path == "~"@ {
        home
    } else if strings::stands_at(path, "~/"@, 0) {
        home + "/"@ + path.skip("~/"@.len() as int)
    } else {
        path
    }
}

/// What the input means before it is resolved: spaces made plain, `@` and `file://` stripped,
/// `~` expanded.
pub open spec fn meant(input: Seq<char>, home: Seq<char>) -> Seq<char> {
    expanded(without_prefix(without_prefix(plain_spaces(input), "@"@), "file://"@), home)
}

/// A path that is not absolute goes on from the working directory.
pub open spec fn from_directory(path: Seq<char>, cwd: Seq<char>) -> Seq<char> {
    if path.len() > 0 && path[0] == '/' {
        path
    } else {
        cwd + "/"@ + path
    }
}

/// The directories and the name that a path leads through: empty pieces and `.` lead nowhere,
/// and `..` leads back, but never above the root.
pub open spec fn walked(pieces: Seq<Seq<char>>) -> Seq<Seq<char>>
    decreases pieces.len(),
{
    if pieces.len() == 0 {
        Seq::empty()
    } else {
        let before = walked(pieces.drop_last());
        let piece = pieces.last();
        if piece == Seq::<char>::empty() || piece == seq!['.'] {
            before
        } else if piece == seq!['.', '.'] {
            if before.len() == 0 {
                before
            } else {
                before.drop_last()
            }
        } else {
            before.push(piece)
        }
    }
}

/// The absolute path through the given directories.
pub open spec fn absolute(parts: Seq<Seq<char>>) -> Seq<char> {
    seq!['/'] + strings::join(parts, seq!['/'])
}

pub open spec fn resolved(input: Seq<char>, cwd: Seq<char>, home: Seq<char>) -> Seq<char> {
    absolute(walked(strings::split_on(from_directory(meant(input, home), cwd), '/')))
}

fn strip(chars: Vec<char>, prefix: &str) -> (rest: Vec<char>)
    ensures
        rest@ == without_prefix(chars@, prefix@),
{
    let wanted = chars_of(prefix);
    if is_at(&chars, &wanted, 0) {
        skip(&chars, wanted.len())
    } else {
        chars
    }
}

fn skip(chars: &Vec<char>, count: usize) -> (rest: Vec<char>)
    requires
        count <= chars@.len(),
    ensures
        rest@ == chars@.skip(count as int),
{
    let mut rest: Vec<char> = Vec::new();
    extend(&mut rest, chars, count, chars.len());
    assert(rest@ =~= chars@.skip(count as int));
    rest
}

fn extend(chars: &mut Vec<char>, more: &Vec<char>, from: usize, to: usize)
    requires
        from <= to <= more@.len(),
    ensures
        final(chars)@ == old(chars)@ + more@.subrange(from as int, to as int),
{
    let ghost before = chars@;
    let mut at: usize = from;
    assert(before + more@.subrange(from as int, from as int) =~= before);
    while at < to
        invariant
            from <= at <= to <= more@.len(),
            chars@ == before + more@.subrange(from as int, at as int),
        decreases to - at,
    {
        chars.push(more[at]);
        at += 1;
        assert(chars@ =~= before + more@.subrange(from as int, at as int));
    }
}

fn expand(path: Vec<char>, home: &str) -> (whole: Vec<char>)
    ensures
        whole@ == expanded(path@, home@),
{
    let tilde = chars_of("~");
    let below = chars_of("~/");
    if same_chars(&path, &tilde) {
        chars_of(home)
    } else if is_at(&path, &below, 0) {
        let mut whole = chars_of(home);
        let slash = chars_of("/");
        extend(&mut whole, &slash, 0, slash.len());
        assert(slash@.subrange(0, slash@.len() as int) =~= "/"@);
        extend(&mut whole, &path, below.len(), path.len());
        assert(path@.subrange(below@.len() as int, path@.len() as int) =~= path@.skip(
            below@.len() as int,
        ));
        whole
    } else {
        path
    }
}

pub fn resolve(input: &str, cwd: &str, home: &str) -> (path: String)
    ensures
        path@ == resolved(input@, cwd@, home@),
{
    let given = chars_of(input);
    let mut spaced: Vec<char> = Vec::new();
    let mut at: usize = 0;
    while at < given.len()
        invariant
            at <= given@.len(),
            spaced@ == plain_spaces(given@.take(at as int)),
        decreases given@.len() - at,
    {
        if is_unicode_space(given[at]) {
            spaced.push(' ');
        } else {
            spaced.push(given[at]);
        }
        at += 1;
        assert(spaced@ =~= plain_spaces(given@.take(at as int)));
    }
    assert(given@.take(at as int) =~= given@);
    let whole = expand(strip(strip(spaced, "@"), "file://"), home);
    let joined = if whole.len() > 0 && whole[0] == '/' {
        whole
    } else {
        let mut joined = chars_of(cwd);
        let slash = chars_of("/");
        extend(&mut joined, &slash, 0, slash.len());
        assert(slash@.subrange(0, slash@.len() as int) =~= "/"@);
        extend(&mut joined, &whole, 0, whole.len());
        assert(whole@.subrange(0, whole@.len() as int) =~= whole@);
        joined
    };
    let bounds = pieces_of(&joined, '/');
    let ghost pieces = strings::split_on(joined@, '/');
    let mut parts: Vec<(usize, usize)> = Vec::new();
    let mut next: usize = 0;
    assert(pieces.take(0) =~= Seq::<Seq<char>>::empty());
    assert(parts_of(parts@, joined@) =~= Seq::<Seq<char>>::empty());
    while next < bounds.len()
        invariant
            next <= bounds@.len(),
            strings::are_bounds(bounds@, joined@, '/'),
            pieces == strings::split_on(joined@, '/'),
            are_parts(parts@, joined@),
            parts_of(parts@, joined@) == walked(pieces.take(next as int)),
        decreases bounds@.len() - next,
    {
        let (start, stop) = bounds[next];
        let length: usize = stop - start;
        let ghost piece = pieces[next as int];
        let ghost before = parts_of(parts@, joined@);
        proof {
            assert(pieces.take(next + 1).drop_last() =~= pieces.take(next as int));
            assert(piece == joined@.subrange(start as int, stop as int));
            assert(length == 0 <==> piece =~= Seq::<char>::empty());
            assert(length == 1 && joined@[start as int] == '.' <==> piece =~= seq!['.']) by {
                if length == 1 {
                    assert(piece[0] == joined@[start as int]);
                }
            }
            assert(length == 2 && joined@[start as int] == '.' && joined@[start + 1] == '.' <==> piece
                =~= seq!['.', '.']) by {
                if length == 2 {
                    assert(piece[0] == joined@[start as int]);
                    assert(piece[1] == joined@[start + 1]);
                }
            }
        }
        if length == 0 || (length == 1 && joined[start] == '.') {
        } else if length == 2 && joined[start] == '.' && joined[start + 1] == '.' {
            if parts.len() > 0 {
                parts.pop();
                assert(parts_of(parts@, joined@) =~= before.drop_last());
            }
        } else {
            parts.push((start, stop));
            assert(parts_of(parts@, joined@) =~= before.push(piece));
        }
        next += 1;
    }
    assert(pieces.take(next as int) =~= pieces);
    let ghost names = parts_of(parts@, joined@);
    let mut normal: Vec<char> = vec!['/'];
    let mut part: usize = 0;
    assert(normal@ =~= seq!['/'] + strings::join(names.take(0), seq!['/']));
    while part < parts.len()
        invariant
            part <= parts@.len(),
            are_parts(parts@, joined@),
            names == parts_of(parts@, joined@),
            normal@ == seq!['/'] + strings::join(names.take(part as int), seq!['/']),
        decreases parts@.len() - part,
    {
        let (start, stop) = parts[part];
        let ghost now = names.take(part + 1);
        assert(now.drop_last() =~= names.take(part as int));
        assert(now.last() == joined@.subrange(start as int, stop as int));
        if part > 0 {
            normal.push('/');
        }
        extend(&mut normal, &joined, start, stop);
        assert(normal@ =~= seq!['/'] + strings::join(now, seq!['/']));
        part += 1;
    }
    assert(names.take(part as int) =~= names);
    text_of(&normal)
}

/// Places of stretches of a text.
spec fn are_parts(parts: Seq<(usize, usize)>, text: Seq<char>) -> bool {
    forall|i: int| #![trigger parts[i]]
        0 <= i < parts.len() ==> parts[i].0 <= parts[i].1 <= text.len()
}

spec fn parts_of(parts: Seq<(usize, usize)>, text: Seq<char>) -> Seq<Seq<char>> {
    parts.map_values(|part: (usize, usize)| text.subrange(part.0 as int, part.1 as int))
}

// ---- Laws ----

/// A name that a path can lead through: not empty, neither `.` nor `..`, without a slash.
pub open spec fn is_name(part: Seq<char>) -> bool {
    &&& part != Seq::<char>::empty()
    &&& part != seq!['.']
    &&& part != seq!['.', '.']
    &&& !part.contains('/')
}

pub open spec fn are_names(parts: Seq<Seq<char>>) -> bool {
    forall|i: int| #![trigger parts[i]] 0 <= i < parts.len() ==> is_name(parts[i])
}

/// A resolved path is absolute and leads through plain names only.
pub proof fn law_resolved_is_absolute_and_plain(input: Seq<char>, cwd: Seq<char>, home: Seq<char>)
    ensures
        exists|parts: Seq<Seq<char>>|
            are_names(parts) && resolved(input, cwd, home) == #[trigger] absolute(parts),
{
    let joined = from_directory(meant(input, home), cwd);
    let pieces = strings::split_on(joined, '/');
    strings::lemma_split_has_no_separator(joined, '/');
    lemma_walked_names(pieces);
    assert(resolved(input, cwd, home) == absolute(walked(pieces)));
}

/// A path that is absolute and plain already resolves to itself, from any directory and with
/// any home, unless it holds a space that is made plain.
pub proof fn law_resolved_path_stays(parts: Seq<Seq<char>>, cwd: Seq<char>, home: Seq<char>)
    requires
        are_names(parts),
        forall|i: int| #![trigger absolute(parts)[i]]
            0 <= i < absolute(parts).len() ==> !is_odd_space(absolute(parts)[i]),
    ensures
        resolved(absolute(parts), cwd, home) == absolute(parts),
{
    let path = absolute(parts);
    lemma_meant(path, home);
    let slash = seq!['/'];
    if parts.len() == 0 {
        assert(path =~= slash);
        let none = Seq::<char>::empty();
        assert(path.drop_last() =~= none);
        assert(strings::split_on(none, '/') == seq![none]);
        assert(strings::split_on(path, '/') =~= seq![none, none]);
        let both = seq![none, none];
        assert(both.drop_last() =~= seq![none]);
        assert(seq![none].drop_last() =~= Seq::<Seq<char>>::empty());
        assert(walked(seq![none]) == walked(Seq::<Seq<char>>::empty()));
        assert(walked(both) == walked(seq![none]));
        assert(walked(both) =~= parts);
    } else {
        let all = seq![Seq::<char>::empty()] + parts;
        lemma_join_after_empty(parts);
        assert(strings::join(all, slash) =~= path);
        assert forall|i: int| #![trigger all[i]] 0 <= i < all.len() implies !all[i].contains('/') by {
            if i > 0 {
                assert(all[i] == parts[i - 1]);
                assert(is_name(parts[i - 1]));
            }
        }
        strings::lemma_split_join(all, '/');
        lemma_walked_plain(parts);
        assert(walked(all) == parts);
    }
}

proof fn lemma_join_after_empty(parts: Seq<Seq<char>>)
    requires
        parts.len() > 0,
    ensures
        strings::join(seq![Seq::<char>::empty()] + parts, seq!['/']) == seq!['/'] + strings::join(
            parts,
            seq!['/'],
        ),
    decreases parts.len(),
{
    let slash = seq!['/'];
    let all = seq![Seq::<char>::empty()] + parts;
    let rest = parts.drop_last();
    assert(all.drop_last() =~= seq![Seq::<char>::empty()] + rest);
    assert(all.last() == parts.last());
    if rest.len() == 0 {
        let one = seq![Seq::<char>::empty()];
        assert(all.drop_last() =~= one);
        assert(strings::join(one, slash) =~= Seq::<char>::empty());
        assert(strings::join(all, slash) =~= slash + parts.last());
        assert(strings::join(parts, slash) =~= parts.last());
    } else {
        lemma_join_after_empty(rest);
        assert(strings::join(all, slash) =~= slash + strings::join(parts, slash));
    }
}

proof fn lemma_walked_names(pieces: Seq<Seq<char>>)
    requires
        forall|i: int| #![trigger pieces[i]] 0 <= i < pieces.len() ==> !pieces[i].contains('/'),
    ensures
        are_names(walked(pieces)),
    decreases pieces.len(),
{
    if pieces.len() > 0 {
        let rest = pieces.drop_last();
        assert forall|i: int| #![trigger rest[i]] 0 <= i < rest.len() implies !rest[i].contains('/') by {
            assert(rest[i] == pieces[i]);
        }
        lemma_walked_names(rest);
        assert(pieces.last() == pieces[pieces.len() - 1]);
        let before = walked(rest);
        let now = walked(pieces);
        assert forall|i: int| #![trigger now[i]] 0 <= i < now.len() implies is_name(now[i]) by {
            if i < before.len() {
                assert(now[i] == before[i]);
            }
        }
    }
}

/// Plain names after the empty piece in front of the first slash are walked as they are.
proof fn lemma_walked_plain(parts: Seq<Seq<char>>)
    requires
        are_names(parts),
    ensures
        walked(seq![Seq::<char>::empty()] + parts) == parts,
    decreases parts.len(),
{
    let all = seq![Seq::<char>::empty()] + parts;
    if parts.len() == 0 {
        assert(all.drop_last() =~= Seq::<Seq<char>>::empty());
        assert(all.last() == Seq::<char>::empty());
        assert(walked(Seq::<Seq<char>>::empty()) =~= parts);
        assert(walked(all) =~= parts);
    } else {
        let rest = parts.drop_last();
        assert forall|i: int| #![trigger rest[i]] 0 <= i < rest.len() implies is_name(rest[i]) by {
            assert(rest[i] == parts[i]);
        }
        lemma_walked_plain(rest);
        assert(all.drop_last() =~= seq![Seq::<char>::empty()] + rest);
        assert(all.last() == parts[parts.len() - 1]);
        assert(is_name(parts[parts.len() - 1]));
        assert(walked(all) =~= parts);
    }
}

/// Whether a text holds no space that is made plain.
pub open spec fn has_plain_spaces(text: Seq<char>) -> bool {
    forall|i: int| #![trigger text[i]] 0 <= i < text.len() ==> !is_odd_space(text[i])
}

/// A text whose beginning means nothing stays as it is.
proof fn lemma_meant(path: Seq<char>, home: Seq<char>)
    requires
        has_plain_spaces(path),
        path.len() > 0 && path[0] == '/' || ({
            let pieces = strings::split_on(path, '/');
            &&& path.len() > 0 && path[0] != '@'
            &&& pieces[0] != seq!['~']
            &&& forall|i: int| #![trigger pieces[i]] 0 <= i < pieces.len() ==> pieces[i].len() > 0
        }),
    ensures
        meant(path, home) == path,
{
    reveal_strlit("@");
    reveal_strlit("file://");
    reveal_strlit("~");
    reveal_strlit("~/");
    reveal_strlit("/");
    let pieces = strings::split_on(path, '/');
    assert(plain_spaces(path) =~= path);
    assert(!strings::stands_at(path, "@"@, 0)) by {
        if strings::stands_at(path, "@"@, 0) {
            assert(path.subrange(0, 1)[0] == "@"@[0]);
        }
    }
    assert(!strings::stands_at(path, "file://"@, 0)) by {
        if strings::stands_at(path, "file://"@, 0) {
            let start = path.subrange(0, 7);
            assert(start[0] == 'f' && start[5] == '/' && start[6] == '/');
            assert(path[0] == 'f' && path[5] == '/' && path[6] == '/');
            let first = path.take(5);
            let second = path.skip(7);
            let rest = Seq::<char>::empty() + "/"@ + second;
            assert(path =~= first + "/"@ + rest);
            lemma_pieces(first, rest);
            lemma_pieces(Seq::empty(), second);
            lemma_one_piece(Seq::empty());
            strings::lemma_split_on_nonempty(first, '/');
            let at = strings::split_on(first, '/').len() as int;
            assert(pieces[at] == Seq::<char>::empty());
        }
    }
    assert(!strings::stands_at(path, "~/"@, 0)) by {
        if strings::stands_at(path, "~/"@, 0) {
            let start = path.subrange(0, 2);
            assert(start[0] == '~' && start[1] == '/');
            assert(path[0] == '~' && path[1] == '/');
            assert(path =~= seq!['~'] + "/"@ + path.skip(2));
            lemma_pieces(seq!['~'], path.skip(2));
            lemma_one_piece(seq!['~']);
        }
    }
    assert(path != "~"@) by {
        if path == "~"@ {
            assert(path =~= seq!['~']);
            lemma_one_piece(path);
        }
    }
}

/// What was walked before decides how a path goes on, and nothing else of it.
proof fn lemma_walked_on(a: Seq<Seq<char>>, b: Seq<Seq<char>>, more: Seq<Seq<char>>)
    requires
        walked(a) == walked(b),
    ensures
        walked(a + more) == walked(b + more),
    decreases more.len(),
{
    if more.len() == 0 {
        assert(a + more =~= a);
        assert(b + more =~= b);
    } else {
        let rest = more.drop_last();
        lemma_walked_on(a, b, rest);
        assert((a + more).drop_last() =~= a + rest);
        assert((b + more).drop_last() =~= b + rest);
        assert((a + more).last() == more.last());
        assert((b + more).last() == more.last());
    }
}

/// Plain names are walked one after the other.
proof fn lemma_walked_through(before: Seq<Seq<char>>, names: Seq<Seq<char>>)
    requires
        are_names(names),
    ensures
        walked(before + names) == walked(before) + names,
    decreases names.len(),
{
    if names.len() == 0 {
        assert(before + names =~= before);
        assert(walked(before) + names =~= walked(before));
    } else {
        let rest = names.drop_last();
        assert(are_names(rest)) by {
            assert forall|i: int| #![trigger rest[i]] 0 <= i < rest.len() implies is_name(
                rest[i],
            ) by {
                assert(rest[i] == names[i]);
            }
        }
        lemma_walked_through(before, rest);
        assert((before + names).drop_last() =~= before + rest);
        assert((before + names).last() == names[names.len() - 1]);
        assert(walked(before + names) =~= walked(before) + names);
    }
}

/// The pieces of a path below a directory.
proof fn lemma_pieces(dir: Seq<char>, rest: Seq<char>)
    ensures
        strings::split_on(dir + "/"@ + rest, '/') == strings::split_on(dir, '/')
            + strings::split_on(rest, '/'),
{
    reveal_strlit("/");
    assert("/"@ =~= seq!['/']);
    strings::lemma_split_concat(dir, rest, '/');
    assert(dir + "/"@ + rest =~= dir.push('/') + rest);
}

proof fn lemma_one_piece(piece: Seq<char>)
    requires
        !piece.contains('/'),
    ensures
        strings::split_on(piece, '/') == seq![piece],
{
    strings::lemma_split_join(seq![piece], '/');
    assert(strings::join(seq![piece], seq!['/']) =~= piece);
}

/// Where a piece leads from somewhere.
proof fn lemma_step(before: Seq<Seq<char>>, piece: Seq<char>)
    ensures
        piece == Seq::<char>::empty() || piece == seq!['.'] ==> walked(before.push(piece))
            == walked(before),
        piece == seq!['.', '.'] ==> walked(before.push(piece)) == (if walked(before).len() == 0 {
            walked(before)
        } else {
            walked(before).drop_last()
        }),
        is_name(piece) ==> walked(before.push(piece)) == walked(before).push(piece),
{
    assert(before.push(piece).drop_last() =~= before);
    assert(seq!['.', '.'].len() == 2 && seq!['.'].len() == 1);
}

/// An absolute path is resolved as it stands, without regard to the directory.
proof fn lemma_resolved_absolute(path: Seq<char>, cwd: Seq<char>, home: Seq<char>)
    requires
        path.len() > 0,
        path[0] == '/',
        has_plain_spaces(path),
    ensures
        resolved(path, cwd, home) == absolute(walked(strings::split_on(path, '/'))),
{
    lemma_meant(path, home);
}

proof fn lemma_plain_path(dir: Seq<char>, rest: Seq<char>)
    requires
        has_plain_spaces(dir),
        has_plain_spaces(rest),
    ensures
        has_plain_spaces(dir + "/"@ + rest),
{
    reveal_strlit("/");
    let all = dir + "/"@ + rest;
    assert forall|i: int| #![trigger all[i]] 0 <= i < all.len() implies !is_odd_space(all[i]) by {
        if i < dir.len() {
            assert(all[i] == dir[i]);
        } else if i > dir.len() {
            assert(all[i] == rest[i - dir.len() - 1]);
        } else {
            assert(all[i] == '/');
        }
    }
}

/// `..` takes back exactly one name, wherever it stands in a path, and none at the root; `.` and
/// a second slash lead nowhere.
pub proof fn law_dots_lead_back_and_nowhere(
    dir: Seq<char>,
    name: Seq<char>,
    rest: Seq<char>,
    cwd: Seq<char>,
    home: Seq<char>,
)
    requires
        dir.len() > 0,
        dir[0] == '/',
        is_name(name),
        has_plain_spaces(dir),
        has_plain_spaces(name),
        has_plain_spaces(rest),
    ensures
        resolved(dir + "/"@ + (name + "/"@ + (".."@ + "/"@ + rest)), cwd, home) == resolved(
            dir + "/"@ + rest,
            cwd,
            home,
        ),
        resolved(dir + "/"@ + ("."@ + "/"@ + rest), cwd, home) == resolved(
            dir + "/"@ + rest,
            cwd,
            home,
        ),
        resolved(dir + "/"@ + (""@ + "/"@ + rest), cwd, home) == resolved(
            dir + "/"@ + rest,
            cwd,
            home,
        ),
        resolved("/"@ + "/"@ + (".."@ + "/"@ + rest), cwd, home) == resolved(
            "/"@ + "/"@ + rest,
            cwd,
            home,
        ),
{
    reveal_strlit("/");
    reveal_strlit(".");
    reveal_strlit("..");
    reveal_strlit("");
    let dots = ".."@;
    let dot = "."@;
    let none = ""@;
    let slash = "/"@;
    assert(dots =~= seq!['.', '.']);
    assert(dot =~= seq!['.']);
    assert(none =~= Seq::<char>::empty());
    assert(slash =~= seq!['/']);
    assert(has_plain_spaces(dots) && has_plain_spaces(dot) && has_plain_spaces(none)
        && has_plain_spaces(slash));
    let up = dots + slash + rest;
    let over = name + slash + up;
    let here = dot + slash + rest;
    let twice = none + slash + rest;
    lemma_plain_path(dots, rest);
    lemma_plain_path(name, up);
    lemma_plain_path(dir, over);
    lemma_plain_path(dot, rest);
    lemma_plain_path(dir, here);
    lemma_plain_path(none, rest);
    lemma_plain_path(dir, twice);
    lemma_plain_path(dir, rest);
    lemma_plain_path(slash, up);
    lemma_plain_path(slash, rest);
    lemma_pieces(dots, rest);
    lemma_pieces(name, up);
    lemma_pieces(dir, over);
    lemma_pieces(dot, rest);
    lemma_pieces(dir, here);
    lemma_pieces(none, rest);
    lemma_pieces(dir, twice);
    lemma_pieces(dir, rest);
    lemma_pieces(slash, up);
    lemma_pieces(slash, rest);
    lemma_one_piece(dots);
    lemma_one_piece(name);
    lemma_one_piece(dot);
    lemma_one_piece(none);
    lemma_resolved_absolute(dir + slash + over, cwd, home);
    lemma_resolved_absolute(dir + slash + here, cwd, home);
    lemma_resolved_absolute(dir + slash + twice, cwd, home);
    lemma_resolved_absolute(dir + slash + rest, cwd, home);
    lemma_resolved_absolute(slash + slash + up, cwd, home);
    lemma_resolved_absolute(slash + slash + rest, cwd, home);
    let before = strings::split_on(dir, '/');
    let more = strings::split_on(rest, '/');
    lemma_step(before, name);
    lemma_step(before.push(name), dots);
    lemma_step(before, dot);
    lemma_step(before, none);
    assert(walked(before).push(name).drop_last() =~= walked(before));
    lemma_walked_on(before.push(name).push(dots), before, more);
    lemma_walked_on(before.push(dot), before, more);
    lemma_walked_on(before.push(none), before, more);
    assert(before + (seq![name] + (seq![dots] + more)) =~= before.push(name).push(dots) + more);
    assert(before + (seq![dot] + more) =~= before.push(dot) + more);
    assert(before + (seq![none] + more) =~= before.push(none) + more);
    let top = strings::split_on(slash, '/');
    assert(slash.drop_last() =~= none);
    assert(top =~= seq![none, none]);
    assert(walked(Seq::<Seq<char>>::empty()).len() == 0);
    lemma_step(Seq::empty(), none);
    lemma_step(Seq::<Seq<char>>::empty().push(none), none);
    assert(top =~= Seq::<Seq<char>>::empty().push(none).push(none));
    lemma_step(top, dots);
    lemma_walked_on(top.push(dots), top, more);
    assert(top + (seq![dots] + more) =~= top.push(dots) + more);
}

/// A relative path goes on from the working directory, name by name, and `..` leads from it to
/// the directory above.
pub proof fn law_relative_paths_go_on_from_the_directory(
    dirs: Seq<Seq<char>>,
    names: Seq<Seq<char>>,
    home: Seq<char>,
)
    requires
        are_names(dirs),
        are_names(names),
        names.len() > 0,
        has_plain_spaces(strings::join(names, seq!['/'])),
        names[0] != seq!['~'],
        names[0][0] != '@',
    ensures
        resolved(strings::join(names, seq!['/']), absolute(dirs), home) == absolute(dirs + names),
        dirs.len() > 0 ==> resolved(".."@, absolute(dirs), home) == absolute(dirs.drop_last()),
        dirs.len() > 0 ==> resolved(
            ".."@ + "/"@ + strings::join(names, seq!['/']),
            absolute(dirs),
            home,
        ) == absolute(dirs.drop_last() + names),
{
    reveal_strlit("/");
    reveal_strlit("..");
    let path = strings::join(names, seq!['/']);
    let cwd = absolute(dirs);
    let dots = ".."@;
    assert(dots =~= seq!['.', '.']);
    assert("/"@ =~= seq!['/']);
    assert forall|i: int| #![trigger names[i]] 0 <= i < names.len() implies !names[i].contains(
        '/',
    ) by {
        assert(is_name(names[i]));
    }
    strings::lemma_split_join(names, '/');
    assert(is_name(names[0]));
    assert(names[0].len() > 0) by {
        if names[0].len() == 0 {
            assert(names[0] =~= Seq::<char>::empty());
        }
    }
    lemma_join_begins(names);
    assert(names[0][0] != '/') by {
        if names[0][0] == '/' {
            assert(names[0].contains(names[0][0]));
        }
    }
    assert forall|i: int| #![trigger names[i]] 0 <= i < names.len() implies names[i].len() > 0 by {
        assert(is_name(names[i]));
        if names[i].len() == 0 {
            assert(names[i] =~= Seq::<char>::empty());
        }
    }
    lemma_meant(path, home);
    lemma_pieces(cwd, path);
    lemma_absolute_walked(dirs);
    let before = strings::split_on(cwd, '/');
    lemma_walked_through(before, names);
    assert(has_plain_spaces(dots));
    lemma_one_piece(dots);
    lemma_meant(dots, home);
    lemma_pieces(cwd, dots);
    lemma_step(before, dots);
    assert(before + seq![dots] =~= before.push(dots));
    let up = dots + "/"@ + path;
    lemma_plain_path(dots, path);
    lemma_pieces(dots, path);
    assert(strings::split_on(up, '/') == seq![dots] + names);
    assert forall|i: int| #![trigger strings::split_on(up, '/')[i]]
        0 <= i < strings::split_on(up, '/').len() implies strings::split_on(up, '/')[i].len()
        > 0 by {
        if i > 0 {
            assert(strings::split_on(up, '/')[i] == names[i - 1]);
        }
    }
    lemma_meant(up, home);
    lemma_pieces(cwd, up);
    lemma_walked_through(before.push(dots), names);
    assert(before + (seq![dots] + names) =~= before.push(dots) + names);
}

proof fn lemma_join_begins(names: Seq<Seq<char>>)
    requires
        names.len() > 0,
        names[0].len() > 0,
    ensures
        strings::join(names, seq!['/']).len() > 0,
        strings::join(names, seq!['/'])[0] == names[0][0],
    decreases names.len(),
{
    if names.len() > 1 {
        let rest = names.drop_last();
        assert(rest[0] == names[0]);
        lemma_join_begins(rest);
    }
}

/// The absolute path through some directories is walked through them.
proof fn lemma_absolute_walked(parts: Seq<Seq<char>>)
    requires
        are_names(parts),
    ensures
        walked(strings::split_on(absolute(parts), '/')) == parts,
{
    let path = absolute(parts);
    let slash = seq!['/'];
    let none = Seq::<char>::empty();
    if parts.len() == 0 {
        assert(path =~= slash);
        assert(path.drop_last() =~= none);
        assert(strings::split_on(none, '/') =~= seq![none]);
        assert(strings::split_on(path, '/') =~= seq![none, none]);
        lemma_step(Seq::empty(), none);
        lemma_step(Seq::<Seq<char>>::empty().push(none), none);
        assert(seq![none, none] =~= Seq::<Seq<char>>::empty().push(none).push(none));
        assert(walked(Seq::<Seq<char>>::empty()) =~= parts);
    } else {
        let all = seq![none] + parts;
        lemma_join_after_empty(parts);
        assert(strings::join(all, slash) =~= path);
        assert forall|i: int| #![trigger all[i]] 0 <= i < all.len() implies !all[i].contains(
            '/',
        ) by {
            if i > 0 {
                assert(all[i] == parts[i - 1]);
                assert(is_name(parts[i - 1]));
            }
        }
        strings::lemma_split_join(all, '/');
        lemma_walked_plain(parts);
    }
}

/// What the beginnings of an input mean: `~` is the home directory, and `@` and `file://` mean
/// nothing.
pub proof fn law_beginnings_mean_a_place(rest: Seq<char>, cwd: Seq<char>, home: Seq<char>)
    requires
        home.len() > 0,
        home[0] == '/',
        has_plain_spaces(home),
        has_plain_spaces(rest),
    ensures
        resolved("~"@, cwd, home) == resolved(home, cwd, home),
        resolved("~/"@ + rest, cwd, home) == resolved(home + "/"@ + rest, cwd, home),
        resolved("@"@ + ("/"@ + rest), cwd, home) == resolved("/"@ + rest, cwd, home),
        resolved("file://"@ + ("/"@ + rest), cwd, home) == resolved("/"@ + rest, cwd, home),
        resolved("@"@ + ("~/"@ + rest), cwd, home) == resolved(home + "/"@ + rest, cwd, home),
{
    reveal_strlit("@");
    reveal_strlit("file://");
    reveal_strlit("~");
    reveal_strlit("~/");
    reveal_strlit("/");
    assert("~"@ =~= seq!['~']);
    assert("~/"@ =~= seq!['~', '/']);
    let tilde = "~"@;
    assert(plain_spaces(tilde) =~= tilde);
    lemma_no_prefix(tilde, "@"@);
    lemma_no_prefix(tilde, "file://"@);
    assert(meant(tilde, home) == home);
    lemma_meant(home, home);
    let below = "~/"@ + rest;
    assert(plain_spaces(below) =~= below) by {
        lemma_plain_path(tilde, rest);
        assert(below =~= tilde + "/"@ + rest);
    }
    lemma_no_prefix(below, "@"@);
    lemma_no_prefix(below, "file://"@);
    assert(strings::stands_at(below, "~/"@, 0)) by {
        assert(below.subrange(0, 2) =~= "~/"@);
    }
    assert(below.skip(2) =~= rest);
    assert(below != tilde) by {
        assert(below.len() >= 2);
    }
    let whole = home + "/"@ + rest;
    lemma_plain_path(home, rest);
    lemma_meant(whole, home);
    assert(meant(below, home) == whole);
    let path = "/"@ + rest;
    assert(path[0] == '/');
    assert(has_plain_spaces(path)) by {
        lemma_plain_path(Seq::empty(), rest);
        assert(path =~= Seq::<char>::empty() + "/"@ + rest);
    }
    lemma_meant(path, home);
    let marked = "@"@ + path;
    lemma_prefixed("@"@, path);
    assert(plain_spaces(marked) =~= marked);
    let given = "file://"@ + path;
    lemma_prefixed("file://"@, path);
    assert(plain_spaces(given) =~= given);
    lemma_no_prefix(given, "@"@);
    lemma_no_prefix(path, "file://"@);
    assert(meant(marked, home) == expanded(path, home));
    assert(meant(given, home) == expanded(path, home));
    assert(plain_spaces(path) =~= path);
    lemma_no_prefix(path, "@"@);
    assert(meant(path, home) == expanded(path, home));
    let both = "@"@ + below;
    lemma_prefixed("@"@, below);
    assert(plain_spaces(both) =~= both) by {
        assert forall|i: int| 0 <= i < both.len() implies plain_spaces(both)[i] == both[i] by {
            if i > 0 {
                assert(both[i] == below[i - 1]);
                assert(plain_spaces(below)[i - 1] == below[i - 1]);
            }
        }
    }
}

proof fn lemma_no_prefix(text: Seq<char>, prefix: Seq<char>)
    requires
        prefix.len() > 0,
        text.len() > 0 ==> text[0] != prefix[0],
    ensures
        without_prefix(text, prefix) == text,
{
    if strings::stands_at(text, prefix, 0) {
        assert(text.subrange(0, prefix.len() as int)[0] == prefix[0]);
    }
}

proof fn lemma_prefixed(prefix: Seq<char>, text: Seq<char>)
    ensures
        without_prefix(prefix + text, prefix) == text,
{
    let all = prefix + text;
    assert(all.subrange(0, prefix.len() as int) =~= prefix);
    assert(all.skip(prefix.len() as int) =~= text);
}

/// A no-break or other odd space in an input is as good as a plain one.
pub proof fn law_odd_spaces_are_spaces(
    before: Seq<char>,
    odd: char,
    after: Seq<char>,
    cwd: Seq<char>,
    home: Seq<char>,
)
    requires
        odd == '\u{00A0}' || odd == '\u{1680}' || '\u{2000}' <= odd <= '\u{200A}' || odd
            == '\u{202F}' || odd == '\u{205F}' || odd == '\u{3000}',
    ensures
        resolved(before + seq![odd] + after, cwd, home) == resolved(
            before + seq![' '] + after,
            cwd,
            home,
        ),
{
    assert(plain_spaces(before + seq![odd] + after) =~= plain_spaces(before + seq![' '] + after));
}

} // verus!
