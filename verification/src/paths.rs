//! Paths as text, with the meaning that `std::path` gives them on Unix.

use crate::strings;
use crate::strings::{chars_of, pieces_of, same_chars, text_between};
use vstd::prelude::*;

verus! {

pub open spec fn is_absolute(path: Seq<char>) -> bool {
    path.len() > 0 && path[0] == '/'
}

/// What `Path::join` makes of a directory and a path: an absolute path stands alone, another
/// goes on after one slash.
pub open spec fn joined(dir: Seq<char>, path: Seq<char>) -> Seq<char> {
    if is_absolute(path) {
        path
    } else if dir.len() == 0 || dir.last() == '/' {
        dir + path
    } else {
        dir.push('/') + path
    }
}

pub fn join(dir: &str, path: &str) -> (whole: String)
    ensures
        whole@ == joined(dir@, path@),
{
    let rest = chars_of(path);
    if rest.len() > 0 && rest[0] == '/' {
        return path.to_owned();
    }
    let start = chars_of(dir);
    let mut whole = dir.to_owned();
    if !(start.len() == 0 || start[start.len() - 1] == '/') {
        whole.push('/');
    }
    whole.append(path);
    whole
}

/// Whether piece `i` of a path counts: empty pieces do not, nor does `.` but in front.
pub open spec fn counts(pieces: Seq<Seq<char>>, i: int) -> bool {
    pieces[i].len() > 0 && (i == 0 || pieces[i] != seq!['.'])
}

/// The components among the first pieces of a path.
pub open spec fn components_of(pieces: Seq<Seq<char>>, upto: int) -> Seq<Seq<char>>
    decreases upto,
{
    if upto <= 0 {
        Seq::empty()
    } else if counts(pieces, upto - 1) {
        components_of(pieces, upto - 1).push(pieces[upto - 1])
    } else {
        components_of(pieces, upto - 1)
    }
}

/// The components of a path, without the root.
pub open spec fn components(path: Seq<char>) -> Seq<Seq<char>> {
    let pieces = strings::split_on(path, '/');
    components_of(pieces, pieces.len() as int)
}

/// Whether two texts name the same path, as `==` on paths says.
pub open spec fn same_path(a: Seq<char>, b: Seq<char>) -> bool {
    is_absolute(a) == is_absolute(b) && components(a) == components(b)
}

/// Whether `path` is `dir` or stands below it, as `Path::starts_with` says: every path stands
/// below the empty one.
pub open spec fn is_within(path: Seq<char>, dir: Seq<char>) -> bool {
    ||| !is_absolute(dir) && components(dir).len() == 0
    ||| is_absolute(path) == is_absolute(dir) && components(dir).len() <= components(path).len()
        && components(path).take(components(dir).len() as int) == components(dir)
}

/// Where the components of a text stand.
spec fn are_places(places: Seq<(usize, usize)>, text: Seq<char>) -> bool {
    forall|i: int| #![trigger places[i]]
        0 <= i < places.len() ==> places[i].0 <= places[i].1 <= text.len()
}

spec fn at_places(places: Seq<(usize, usize)>, text: Seq<char>) -> Seq<Seq<char>> {
    places.map_values(|place: (usize, usize)| text.subrange(place.0 as int, place.1 as int))
}

fn places_of(chars: &Vec<char>) -> (places: Vec<(usize, usize)>)
    ensures
        are_places(places@, chars@),
        at_places(places@, chars@) == components(chars@),
{
    let bounds = pieces_of(chars, '/');
    let ghost pieces = strings::split_on(chars@, '/');
    let mut places: Vec<(usize, usize)> = Vec::new();
    let mut next: usize = 0;
    assert(at_places(places@, chars@) =~= Seq::<Seq<char>>::empty());
    while next < bounds.len()
        invariant
            next <= bounds@.len(),
            strings::are_bounds(bounds@, chars@, '/'),
            pieces == strings::split_on(chars@, '/'),
            are_places(places@, chars@),
            at_places(places@, chars@) == components_of(pieces, next as int),
        decreases bounds@.len() - next,
    {
        let (start, stop) = bounds[next];
        let ghost piece = pieces[next as int];
        let ghost before = at_places(places@, chars@);
        proof {
            assert(piece == chars@.subrange(start as int, stop as int));
            assert(stop - start == 1 && chars@[start as int] == '.' <==> piece =~= seq!['.']) by {
                if stop - start == 1 {
                    assert(piece[0] == chars@[start as int]);
                }
            }
        }
        if start < stop && (next == 0 || !(stop - start == 1 && chars[start] == '.')) {
            places.push((start, stop));
            assert(at_places(places@, chars@) =~= before.push(piece));
        }
        next += 1;
    }
    places
}

/// Whether the first components of one text are the first components of another.
fn same_components(
    a: &Vec<char>,
    a_places: &Vec<(usize, usize)>,
    b: &Vec<char>,
    b_places: &Vec<(usize, usize)>,
    count: usize,
) -> (same: bool)
    requires
        are_places(a_places@, a@),
        are_places(b_places@, b@),
        count <= a_places@.len(),
        count <= b_places@.len(),
    ensures
        same == (at_places(a_places@, a@).take(count as int) == at_places(b_places@, b@).take(
            count as int,
        )),
{
    let ghost left = at_places(a_places@, a@);
    let ghost right = at_places(b_places@, b@);
    let mut i: usize = 0;
    assert(left.take(0) =~= right.take(0));
    while i < count
        invariant
            i <= count,
            count <= a_places@.len(),
            count <= b_places@.len(),
            are_places(a_places@, a@),
            are_places(b_places@, b@),
            left == at_places(a_places@, a@),
            right == at_places(b_places@, b@),
            left.take(i as int) == right.take(i as int),
        decreases count - i,
    {
        let one = part(a, a_places[i].0, a_places[i].1);
        let other = part(b, b_places[i].0, b_places[i].1);
        assert(one@ == left[i as int] && other@ == right[i as int]);
        if !same_chars(&one, &other) {
            assert(left.take(count as int)[i as int] != right.take(count as int)[i as int]);
            return false;
        }
        assert(left.take(i + 1) =~= left.take(i as int).push(left[i as int]));
        assert(right.take(i + 1) =~= right.take(i as int).push(right[i as int]));
        i += 1;
    }
    true
}

fn part(chars: &Vec<char>, from: usize, to: usize) -> (part: Vec<char>)
    requires
        from <= to <= chars@.len(),
    ensures
        part@ == chars@.subrange(from as int, to as int),
{
    let text = text_between(chars, from, to);
    chars_of(text.as_str())
}

/// The components of a path, without the root.
pub fn parts(path: &str) -> (parts: Vec<String>)
    ensures
        strings::texts(parts@) == components(path@),
{
    let chars = chars_of(path);
    let places = places_of(&chars);
    let ghost all = components(path@);
    let mut parts: Vec<String> = Vec::new();
    let mut i: usize = 0;
    assert(strings::texts(parts@) =~= all.take(0));
    while i < places.len()
        invariant
            i <= places@.len(),
            are_places(places@, chars@),
            all == at_places(places@, chars@),
            strings::texts(parts@) == all.take(i as int),
        decreases places@.len() - i,
    {
        let part = text_between(&chars, places[i].0, places[i].1);
        assert(part@ == all[i as int]);
        let ghost before = strings::texts(parts@);
        parts.push(part);
        assert(strings::texts(parts@) =~= before.push(part@));
        i += 1;
        assert(strings::texts(parts@) =~= all.take(i as int));
    }
    assert(all.take(i as int) =~= all);
    parts
}

/// Whether two texts name the same path.
pub fn equal(a: &str, b: &str) -> (same: bool)
    ensures
        same == same_path(a@, b@),
{
    let left = chars_of(a);
    let right = chars_of(b);
    let left_root = left.len() > 0 && left[0] == '/';
    let right_root = right.len() > 0 && right[0] == '/';
    if left_root != right_root {
        return false;
    }
    let left_places = places_of(&left);
    let right_places = places_of(&right);
    assert(at_places(left_places@, left@).len() == left_places@.len());
    assert(at_places(right_places@, right@).len() == right_places@.len());
    if left_places.len() != right_places.len() {
        return false;
    }
    let same = same_components(&left, &left_places, &right, &right_places, left_places.len());
    assert(components(a@).take(left_places@.len() as int) =~= components(a@));
    assert(components(b@).take(left_places@.len() as int) =~= components(b@));
    same
}

/// Whether `path` is `dir` or stands below it.
pub fn within(path: &str, dir: &str) -> (inside: bool)
    ensures
        inside == is_within(path@, dir@),
{
    let whole = chars_of(path);
    let start = chars_of(dir);
    let whole_root = whole.len() > 0 && whole[0] == '/';
    let start_root = start.len() > 0 && start[0] == '/';
    let whole_places = places_of(&whole);
    let start_places = places_of(&start);
    assert(at_places(whole_places@, whole@).len() == whole_places@.len());
    assert(at_places(start_places@, start@).len() == start_places@.len());
    if !start_root && start_places.len() == 0 {
        return true;
    }
    if whole_root != start_root {
        return false;
    }
    if start_places.len() > whole_places.len() {
        return false;
    }
    let same = same_components(&whole, &whole_places, &start, &start_places, start_places.len());
    assert(components(dir@).take(start_places@.len() as int) =~= components(dir@));
    same
}

/// The path through these components.
pub open spec fn rendered(absolute: bool, components: Seq<Seq<char>>) -> Seq<char> {
    if absolute {
        seq!['/'] + strings::join(components, seq!['/'])
    } else {
        strings::join(components, seq!['/'])
    }
}

/// The directory that a path stands in; none for the root and for an empty path.
pub open spec fn parent_of(path: Seq<char>) -> Option<Seq<char>> {
    let all = components(path);
    if all.len() == 0 {
        None
    } else {
        Some(rendered(is_absolute(path), all.drop_last()))
    }
}

pub fn parent(path: &str) -> (dir: Option<String>)
    ensures
        match dir {
            Some(dir) => parent_of(path@) == Some(dir@),
            None => parent_of(path@) is None,
        },
{
    let all = parts(path);
    let ghost names = components(path@);
    assert(names.len() == all@.len());
    if all.len() == 0 {
        return None;
    }
    let chars = chars_of(path);
    let count: usize = all.len() - 1;
    let mut dir = String::new();
    let root = chars.len() > 0 && chars[0] == '/';
    if root {
        dir.push('/');
    }
    let mut i: usize = 0;
    assert(dir@ =~= rendered(root, names.take(0)));
    while i < count
        invariant
            i <= count < all@.len(),
            names == strings::texts(all@),
            dir@ == rendered(root, names.take(i as int)),
        decreases count - i,
    {
        let ghost now = names.take(i + 1);
        assert(now.drop_last() =~= names.take(i as int));
        assert(now.last() == all@[i as int]@);
        if i > 0 {
            dir.push('/');
        }
        dir.append(all[i].as_str());
        assert(dir@ =~= rendered(root, now));
        i += 1;
    }
    assert(names.take(count as int) =~= names.drop_last());
    Some(dir)
}

/// An absolute path stands alone; what is joined to an absolute directory is absolute. Another path
/// goes on after the directory, with one slash between them.
pub proof fn law_joined_absolute_stands_alone(dir: Seq<char>, path: Seq<char>)
    ensures
        is_absolute(path) ==> joined(dir, path) == path,
        path.len() > 0 && path[0] == '/' ==> joined(dir, path) == path,
        is_absolute(dir) && !is_absolute(path) ==> is_absolute(joined(dir, path)),
        dir.len() > 0 && dir.last() != '/' && !(path.len() > 0 && path[0] == '/') ==> joined(
            dir,
            path,
        ) == dir + seq!['/'] + path,
        !(path.len() > 0 && path[0] == '/') ==> joined(dir.push('/'), path) == dir + seq!['/']
            + path && joined(Seq::empty(), path) == path,
{
    assert(dir.push('/') + path =~= dir + seq!['/'] + path);
    assert(Seq::<char>::empty() + path =~= path);
}

proof fn lemma_components_part(pieces: Seq<Seq<char>>, more: Seq<Seq<char>>, upto: int)
    requires
        0 <= upto <= pieces.len(),
    ensures
        components_of(pieces + more, upto) == components_of(pieces, upto),
    decreases upto,
{
    if upto > 0 {
        lemma_components_part(pieces, more, upto - 1);
        assert((pieces + more)[upto - 1] == pieces[upto - 1]);
    }
}

/// A name after a slash is one more component; a slash at the end, or a `.` after one, is none.
pub proof fn law_a_name_is_one_component(dir: Seq<char>, name: Seq<char>)
    requires
        !name.contains('/'),
    ensures
        name.len() > 0 && name != seq!['.'] ==> components(dir.push('/') + name) == components(
            dir,
        ).push(name),
        components(dir.push('/')) == components(dir),
        components(dir + seq!['/', '.']) == components(dir),
        name.len() > 0 ==> components(name) == seq![name],
        components(Seq::empty()) == Seq::<Seq<char>>::empty(),
{
    let none = Seq::<char>::empty();
    let dot = seq!['.'];
    let pieces = strings::split_on(dir, '/');
    let count = pieces.len() as int;
    strings::lemma_split_on_nonempty(dir, '/');
    assert(!none.contains('/'));
    assert(!dot.contains('/'));
    lemma_one_piece(name);
    lemma_one_piece(none);
    lemma_one_piece(dot);
    strings::lemma_split_concat(dir, name, '/');
    strings::lemma_split_concat(dir, none, '/');
    strings::lemma_split_concat(dir, dot, '/');
    assert(dir.push('/') + none =~= dir.push('/'));
    assert(dir.push('/') + dot =~= dir + seq!['/', '.']);
    lemma_components_part(pieces, seq![name], count);
    lemma_components_part(pieces, seq![none], count);
    lemma_components_part(pieces, seq![dot], count);
    assert((pieces + seq![name])[count] == name);
    assert((pieces + seq![none])[count] == none);
    assert((pieces + seq![dot])[count] == dot);
    reveal_with_fuel(components_of, 2);
    assert(seq![name][0] == name);
    assert(seq![none][0] == none);
    if name.len() > 0 {
        assert(components(name) =~= seq![name]);
    }
}

proof fn lemma_one_piece(name: Seq<char>)
    requires
        !name.contains('/'),
    ensures
        strings::split_on(name, '/') == seq![name],
{
    let one = seq![name];
    assert(strings::join(one, seq!['/']) == name);
    strings::lemma_split_join(one, '/');
}

/// A plain name: something, with no slash in it, and not `.`.
pub open spec fn is_plain_name(name: Seq<char>) -> bool {
    name.len() > 0 && !name.contains('/') && name != seq!['.']
}

/// The components of a path through plain names are these names.
pub proof fn law_components_are_the_names(names: Seq<Seq<char>>)
    requires
        forall|i: int| #![trigger names[i]] 0 <= i < names.len() ==> is_plain_name(names[i]),
    ensures
        components(seq!['/'] + strings::join(names, seq!['/'])) == names,
        components(strings::join(names, seq!['/'])) == names,
        is_absolute(seq!['/'] + strings::join(names, seq!['/'])),
        names.len() > 0 ==> !is_absolute(strings::join(names, seq!['/'])),
    decreases names.len(),
{
    let slash = seq!['/'];
    let none = Seq::<char>::empty();
    let whole = strings::join(names, slash);
    if names.len() == 0 {
        law_a_name_is_one_component(none, none);
        assert(slash + whole =~= none.push('/'));
        assert(whole =~= none);
        assert(names =~= Seq::<Seq<char>>::empty());
    } else {
        let rest = names.drop_last();
        let last = names.last();
        let before = strings::join(rest, slash);
        assert(last == names[names.len() - 1]);
        assert forall|i: int| #![trigger rest[i]] 0 <= i < rest.len() implies is_plain_name(
            rest[i],
        ) by {
            assert(rest[i] == names[i]);
        }
        law_components_are_the_names(rest);
        assert(rest.push(last) =~= names);
        if rest.len() == 0 {
            assert(whole == last);
            law_a_name_is_one_component(none, last);
            assert(slash + whole =~= none.push('/') + last);
            assert(seq![last] =~= names);
            assert(last.contains(last[0]));
        } else {
            assert(whole == before + slash + last);
            assert(before.len() > 0) by {
                if before.len() == 0 {
                    assert(before =~= none);
                    law_a_name_is_one_component(none, none);
                }
            }
            law_a_name_is_one_component(slash + before, last);
            law_a_name_is_one_component(before, last);
            assert(slash + whole =~= (slash + before).push('/') + last);
            assert(whole =~= before.push('/') + last);
            assert(whole[0] == before[0]);
        }
    }
}

/// The directory of a path through plain names is the path through all of them but the last.
pub proof fn law_the_parent_is_all_but_the_last_name(names: Seq<Seq<char>>, last: Seq<char>)
    requires
        forall|i: int| #![trigger names[i]] 0 <= i < names.len() ==> is_plain_name(names[i]),
        is_plain_name(last),
    ensures
        parent_of(seq!['/'] + strings::join(names.push(last), seq!['/'])) == Some(
            seq!['/'] + strings::join(names, seq!['/']),
        ),
        parent_of(strings::join(names.push(last), seq!['/'])) == Some(
            strings::join(names, seq!['/']),
        ),
        parent_of(seq!['/']) is None,
        parent_of(Seq::empty()) is None,
{
    let all = names.push(last);
    let none = Seq::<char>::empty();
    assert forall|i: int| #![trigger all[i]] 0 <= i < all.len() implies is_plain_name(all[i]) by {
        if i < names.len() {
            assert(all[i] == names[i]);
        }
    }
    law_components_are_the_names(all);
    assert(all.drop_last() =~= names);
    law_a_name_is_one_component(none, none);
    assert(seq!['/'] =~= none.push('/'));
}

/// One absolute path through plain names stands below another exactly where it goes on from it, and
/// two of them are the same path exactly where their names are the same.
pub proof fn law_a_path_is_within_what_it_goes_on_from(
    names: Seq<Seq<char>>,
    dir: Seq<Seq<char>>,
)
    requires
        forall|i: int| #![trigger names[i]] 0 <= i < names.len() ==> is_plain_name(names[i]),
        forall|i: int| #![trigger dir[i]] 0 <= i < dir.len() ==> is_plain_name(dir[i]),
    ensures
        is_within(
            seq!['/'] + strings::join(names, seq!['/']),
            seq!['/'] + strings::join(dir, seq!['/']),
        ) <==> exists|rest: Seq<Seq<char>>| names == #[trigger] (dir + rest),
        same_path(
            seq!['/'] + strings::join(names, seq!['/']),
            seq!['/'] + strings::join(dir, seq!['/']),
        ) <==> names == dir,
{
    let count = dir.len() as int;
    law_components_are_the_names(names);
    law_components_are_the_names(dir);
    if count <= names.len() && names.take(count) == dir {
        assert(names =~= dir + names.skip(count));
    }
    if exists|rest: Seq<Seq<char>>| names == #[trigger] (dir + rest) {
        let rest = choose|rest: Seq<Seq<char>>| names == #[trigger] (dir + rest);
        assert(names.take(count) =~= dir);
    }
}

} // verus!
