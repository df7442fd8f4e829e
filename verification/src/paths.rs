//! Paths as texts whose parts stand between slashes.
use crate::names::{add_name, ascending, lists};
use crate::text::{chars_of, joined, precedes, push_char, text_between};
use vstd::prelude::*;

verus! {

/// The path without slashes, and parts that are a single dot, at its end.
pub open spec fn bare(path: Seq<char>) -> Seq<char>
    decreases path.len(),
{
    if path.len() > 0 && path.last() == '/' {
        bare(path.drop_last())
    } else if path.len() > 1 && path.last() == '.' && path[path.len() - 2] == '/' {
        bare(path.drop_last())
    } else {
        path
    }
}

/// Where the last part of a path starts.
pub open spec fn name_start(path: Seq<char>) -> int
    decreases path.len(),
{
    if path.len() == 0 || path.last() == '/' {
        path.len() as int
    } else {
        name_start(path.drop_last())
    }
}

/// Where the last dot stands.
pub open spec fn last_dot(name: Seq<char>) -> Option<int>
    decreases name.len(),
{
    if name.len() == 0 {
        None
    } else if name.last() == '.' {
        Some(name.len() - 1)
    } else {
        last_dot(name.drop_last())
    }
}

/// The name of the file that a path leads to: nothing where the path leads to no file by
/// name.
pub open spec fn file_name(path: Seq<char>) -> Option<Seq<char>> {
    let end = bare(path);
    let name = end.subrange(name_start(end), end.len() as int);
    if name == ""@ || name == "."@ || name == ".."@ {
        None
    } else {
        Some(name)
    }
}

/// Where the extension of a name starts, with its dot. A dot at the front starts none.
pub open spec fn stem_length(name: Seq<char>) -> int {
    match last_dot(name) {
        Some(dot) => if dot > 0 {
            dot
        } else {
            name.len() as int
        },
        None => name.len() as int,
    }
}

pub open spec fn extension_of(path: Seq<char>) -> Option<Seq<char>> {
    match file_name(path) {
        Some(name) => if stem_length(name) < name.len() {
            Some(name.subrange(stem_length(name) + 1, name.len() as int))
        } else {
            None
        },
        None => None,
    }
}

/// The path with the given extension in place of its own.
pub open spec fn path_with_extension(path: Seq<char>, extension: Seq<char>) -> Seq<char> {
    match file_name(path) {
        Some(name) => {
            let end = bare(path);
            end.subrange(0, name_start(end) + stem_length(name)) + "."@ + extension
        },
        None => path,
    }
}

fn bare_length(chars: &Vec<char>) -> (r: usize)
    ensures
        r <= chars.len(),
        bare(chars@) == chars@.take(r as int),
{
    let mut n: usize = chars.len();
    assert(chars@.take(n as int) =~= chars@);
    while n > 0 && (chars[n - 1] == '/' || (n > 1 && chars[n - 1] == '.' && chars[n - 2] == '/'))
        invariant
            n <= chars.len(),
            bare(chars@) == bare(chars@.take(n as int)),
        decreases n,
    {
        assert(chars@.take(n as int).drop_last() =~= chars@.take(n - 1));
        n -= 1;
    }
    n
}

fn name_start_in(chars: &Vec<char>, end: usize) -> (r: usize)
    requires
        end <= chars.len(),
    ensures
        r <= end,
        r == name_start(chars@.take(end as int)),
{
    let mut n: usize = end;
    while n > 0 && chars[n - 1] != '/'
        invariant
            n <= end <= chars.len(),
            name_start(chars@.take(end as int)) == name_start(chars@.take(n as int)),
        decreases n,
    {
        assert(chars@.take(n as int).drop_last() =~= chars@.take(n - 1));
        n -= 1;
    }
    n
}

fn stem_end_in(chars: &Vec<char>, start: usize, end: usize) -> (r: usize)
    requires
        start <= end <= chars.len(),
    ensures
        start <= r <= end,
        r - start == stem_length(chars@.subrange(start as int, end as int)),
        r < end ==> chars@[r as int] == '.',
{
    let ghost name = chars@.subrange(start as int, end as int);
    let mut n: usize = end;
    assert(name.take(n - start) =~= name);
    while n > start && chars[n - 1] != '.'
        invariant
            start <= n <= end <= chars.len(),
            name == chars@.subrange(start as int, end as int),
            last_dot(name) == last_dot(name.take(n - start)),
        decreases n,
    {
        assert(name.take(n - start).last() == chars@[n - 1]);
        assert(name.take(n - start).drop_last() =~= name.take(n - start - 1));
        n -= 1;
    }
    proof {
        if n > start {
            assert(name.take(n - start).last() == chars@[n - 1]);
        }
    }
    if n > start && n - 1 > start {
        n - 1
    } else {
        end
    }
}

/// Where the file's name stands in a path.
fn find_name(chars: &Vec<char>) -> (r: Option<(usize, usize)>)
    ensures
        match r {
            Some((start, end)) => {
                &&& start <= end <= chars.len()
                &&& bare(chars@) == chars@.take(end as int)
                &&& start == name_start(bare(chars@))
                &&& file_name(chars@) == Some(chars@.subrange(start as int, end as int))
            },
            None => file_name(chars@) is None,
        },
{
    let end: usize = bare_length(chars);
    let start: usize = name_start_in(chars, end);
    proof {
        reveal_strlit("");
        reveal_strlit(".");
        reveal_strlit("..");
        let path = bare(chars@);
        assert(path.subrange(start as int, end as int) =~= chars@.subrange(
            start as int,
            end as int,
        ));
    }
    let ghost name = chars@.subrange(start as int, end as int);
    if start == end {
        assert(name =~= ""@);
        return None;
    }
    if end - start == 1 && chars[start] == '.' {
        assert(name =~= "."@);
        return None;
    }
    if end - start == 2 && chars[start] == '.' && chars[start + 1] == '.' {
        assert(name =~= ".."@);
        return None;
    }
    proof {
        assert(name[0] == chars@[start as int]);
        if name.len() == 2 {
            assert(name[1] == chars@[start + 1]);
        }
        if name == "."@ {
            assert(name[0] == '.');
        }
        if name == ".."@ {
            assert(name[0] == '.' && name[1] == '.');
        }
    }
    Some((start, end))
}

/// The extension of the file that a path leads to.
pub fn extension(path: &str) -> (r: Option<String>)
    ensures
        match r {
            Some(found) => extension_of(path@) == Some(found@),
            None => extension_of(path@) is None,
        },
{
    let chars = chars_of(path);
    match find_name(&chars) {
        Some((start, end)) => {
            let stem: usize = stem_end_in(&chars, start, end);
            if stem < end {
                proof {
                    let name = chars@.subrange(start as int, end as int);
                    assert(name.subrange(stem - start + 1, name.len() as int) =~= chars@.subrange(
                        stem + 1,
                        end as int,
                    ));
                }
                Some(text_between(&chars, stem + 1, end))
            } else {
                None
            }
        },
        None => None,
    }
}

/// The path with another extension.
pub fn with_extension(path: &str, extension: &str) -> (r: String)
    ensures
        r@ == path_with_extension(path@, extension@),
{
    let chars = chars_of(path);
    match find_name(&chars) {
        Some((start, end)) => {
            let stem: usize = stem_end_in(&chars, start, end);
            proof {
                assert(bare(chars@).subrange(0, stem as int) =~= chars@.subrange(0, stem as int));
            }
            let front = text_between(&chars, 0, stem);
            let front = joined(front.as_str(), ".");
            joined(front.as_str(), extension)
        },
        None => path.to_owned(),
    }
}

/// A path with another behind it; one that starts at the root stands alone.
pub open spec fn path_joined(directory: Seq<char>, rest: Seq<char>) -> Seq<char> {
    if rest.len() > 0 && rest[0] == '/' {
        rest
    } else if directory.len() == 0 || directory.last() == '/' {
        directory + rest
    } else {
        directory + "/"@ + rest
    }
}

pub fn join_path(directory: &str, rest: &str) -> (r: String)
    ensures
        r@ == path_joined(directory@, rest@),
{
    let front = chars_of(directory);
    let back = chars_of(rest);
    if back.len() > 0 && back[0] == '/' {
        rest.to_owned()
    } else if front.len() == 0 || front[front.len() - 1] == '/' {
        joined(directory, rest)
    } else {
        joined(joined(directory, "/").as_str(), rest)
    }
}

// ---------------------------------------------------------------------------
// The order of paths
// ---------------------------------------------------------------------------

/// A slash as the first of all characters, and that one as the slash.
pub open spec fn slash_first(c: char) -> char {
    if c == '/' {
        '\0'
    } else if c == '\0' {
        '/'
    } else {
        c
    }
}

pub open spec fn path_key(path: Seq<char>) -> Seq<char> {
    Seq::new(path.len(), |i: int| slash_first(path[i]))
}

/// Paths are ordered part by part: a slash stands before every other character.
pub open spec fn path_precedes(a: Seq<char>, b: Seq<char>) -> bool {
    precedes(path_key(a), path_key(b))
}

/// Each path stands once, before those that it precedes.
pub open spec fn paths_ascend(paths: Seq<String>) -> bool {
    forall|i: int, j: int|
        0 <= i < j < paths.len() ==> path_precedes((#[trigger] paths[i])@, (#[trigger] paths[j])@)
}

proof fn lemma_key_twice(path: Seq<char>)
    ensures
        path_key(path_key(path)) == path,
{
    assert(path_key(path_key(path)) =~= path);
}

fn key_of(path: &str) -> (r: String)
    ensures
        r@ == path_key(path@),
{
    let chars = chars_of(path);
    let ghost key = path_key(path@);
    let mut r = String::new();
    let mut i: usize = 0;
    while i < chars.len()
        invariant
            i <= chars.len(),
            chars@ == path@,
            key == path_key(path@),
            r@ == key.take(i as int),
        decreases chars.len() - i,
    {
        let c = if chars[i] == '/' {
            '\0'
        } else if chars[i] == '\0' {
            '/'
        } else {
            chars[i]
        };
        push_char(&mut r, c);
        assert(key.take(i + 1) =~= key.take(i as int).push(c));
        i += 1;
    }
    assert(key.take(key.len() as int) =~= key);
    r
}

/// Puts paths in order, each once.
pub fn sort_paths(paths: &Vec<String>) -> (r: Vec<String>)
    ensures
        paths_ascend(r@),
        forall|path: Seq<char>| #[trigger] lists(r@, path) <==> lists(paths@, path),
{
    let ghost all = paths@;
    let mut keys: Vec<String> = Vec::new();
    let mut i: usize = 0;
    while i < paths.len()
        invariant
            i <= paths.len(),
            all == paths@,
            ascending(keys@),
            forall|key: Seq<char>| #[trigger]
                lists(keys@, key) <==> lists(all.take(i as int), path_key(key)),
        decreases paths.len() - i,
    {
        let key = key_of(paths[i].as_str());
        let ghost before = keys@;
        add_name(&mut keys, key.as_str());
        proof {
            let path = all[i as int]@;
            let front = all.take(i as int);
            let longer = all.take(i + 1);
            lemma_key_twice(path);
            assert forall|k: Seq<char>| #[trigger]
                lists(keys@, k) <==> lists(longer, path_key(k)) by {
                lemma_key_twice(k);
                assert(lists(before, k) <==> lists(front, path_key(k)));
                if lists(front, path_key(k)) {
                    let at = choose|at: int|
                        0 <= at < front.len() && (#[trigger] front[at])@ == path_key(k);
                    assert(longer[at]@ == path_key(k));
                }
                if k == key@ {
                    assert(longer[i as int]@ == path_key(k));
                }
                if lists(longer, path_key(k)) {
                    let at = choose|at: int|
                        0 <= at < longer.len() && (#[trigger] longer[at])@ == path_key(k);
                    if at < i {
                        assert(front[at]@ == path_key(k));
                    } else {
                        assert(path_key(path) == k);
                    }
                }
            }
        }
        i += 1;
    }
    assert(all.take(all.len() as int) =~= all);
    let mut r: Vec<String> = Vec::new();
    let mut j: usize = 0;
    while j < keys.len()
        invariant
            j <= keys.len(),
            r.len() == j,
            forall|k: int| 0 <= k < j ==> (#[trigger] r@[k])@ == path_key(keys@[k]@),
        decreases keys.len() - j,
    {
        r.push(key_of(keys[j].as_str()));
        j += 1;
    }
    proof {
        assert forall|a: int, b: int| 0 <= a < b < r@.len() implies path_precedes(
            (#[trigger] r@[a])@,
            (#[trigger] r@[b])@,
        ) by {
            lemma_key_twice(keys@[a]@);
            lemma_key_twice(keys@[b]@);
            assert(precedes(keys@[a]@, keys@[b]@));
        }
        assert forall|path: Seq<char>| #[trigger] lists(r@, path) <==> lists(all, path) by {
            lemma_key_twice(path);
            let key = path_key(path);
            assert(lists(keys@, key) <==> lists(all, path_key(key)));
            if lists(r@, path) {
                let at = choose|at: int| 0 <= at < r@.len() && (#[trigger] r@[at])@ == path;
                lemma_key_twice(keys@[at]@);
                assert(keys@[at]@ == key);
            }
            if lists(keys@, key) {
                let at = choose|at: int| 0 <= at < keys@.len() && (#[trigger] keys@[at])@ == key;
                assert(r@[at]@ == path);
            }
        }
    }
    r
}

/// The name of a file is what stands behind the last slash of its path.
pub proof fn lemma_file_name_is_the_last_part(directory: Seq<char>, name: Seq<char>)
    requires
        name.len() > 0,
        forall|i: int| 0 <= i < name.len() ==> #[trigger] name[i] != '/',
        name != "."@,
        name != ".."@,
    ensures
        file_name(directory + "/"@ + name) == Some(name),
        name_start(directory + "/"@ + name) == directory.len() + 1,
        bare(directory + "/"@ + name) == directory + "/"@ + name,
{
    let path = directory + "/"@ + name;
    reveal_strlit("/");
    reveal_strlit(".");
    reveal_strlit("");
    assert("/"@.len() == 1 && "/"@[0] == '/');
    assert(path.len() == directory.len() + 1 + name.len());
    assert(path[directory.len() as int] == '/');
    assert forall|i: int| 0 <= i < name.len() implies #[trigger] name[i] == path[directory.len() + 1
        + i] by {}
    assert(path.last() == name.last());
    assert(name.last() == name[name.len() - 1]);
    assert(bare(path) == path) by {
        if path.last() == '.' && path[path.len() - 2] == '/' {
            if name.len() > 1 {
                assert(name[name.len() - 2] == path[path.len() - 2]);
            } else {
                assert(name =~= "."@);
            }
        }
    }
    lemma_name_start(path, (directory.len() + 1) as int);
    assert(path.subrange((directory.len() + 1) as int, path.len() as int) =~= name);
    assert(""@.len() == 0);
}

proof fn lemma_name_start(path: Seq<char>, start: int)
    requires
        0 < start <= path.len(),
        path[start - 1] == '/',
        forall|i: int| start <= i < path.len() ==> #[trigger] path[i] != '/',
    ensures
        name_start(path) == start,
    decreases path.len(),
{
    if path.len() > start {
        assert(path.last() == path[path.len() - 1]);
        let front = path.drop_last();
        assert forall|i: int| start <= i < front.len() implies #[trigger] front[i] != '/' by {
            assert(front[i] == path[i]);
        }
        lemma_name_start(front, start);
    } else {
        assert(path.last() == path[start - 1]);
    }
}

proof fn lemma_last_dot_of(stem: Seq<char>, extension: Seq<char>)
    requires
        forall|i: int| 0 <= i < extension.len() ==> #[trigger] extension[i] != '.',
    ensures
        last_dot(stem + "."@ + extension) == Some(stem.len() as int),
    decreases extension.len(),
{
    reveal_strlit(".");
    assert("."@.len() == 1 && "."@[0] == '.');
    let name = stem + "."@ + extension;
    if extension.len() > 0 {
        assert(name.last() == extension.last());
        assert(extension.last() == extension[extension.len() - 1]);
        let front = extension.drop_last();
        assert forall|i: int| 0 <= i < front.len() implies #[trigger] front[i] != '.' by {
            assert(front[i] == extension[i]);
        }
        lemma_last_dot_of(stem, front);
        assert(name.drop_last() =~= stem + "."@ + front);
    } else {
        assert(name.last() == '.');
    }
}

/// The extension of a file is what stands behind the last dot of its name, and another takes
/// its place there alone.
pub proof fn lemma_extension_stands_behind_the_last_dot(
    directory: Seq<char>,
    stem: Seq<char>,
    extension: Seq<char>,
    other: Seq<char>,
)
    requires
        stem.len() > 0,
        extension.len() > 0,
        forall|i: int| 0 <= i < stem.len() ==> #[trigger] stem[i] != '/',
        forall|i: int| 0 <= i < extension.len() ==> #[trigger] extension[i] != '/' && extension[i]
            != '.',
    ensures
        extension_of(directory + "/"@ + (stem + "."@ + extension)) == Some(extension),
        path_with_extension(directory + "/"@ + (stem + "."@ + extension), other) == directory + "/"@
            + (stem + "."@ + other),
{
    let name = stem + "."@ + extension;
    let path = directory + "/"@ + name;
    reveal_strlit(".");
    reveal_strlit("/");
    reveal_strlit("..");
    assert("."@.len() == 1 && "."@[0] == '.');
    assert("/"@.len() == 1);
    assert(".."@.len() == 2);
    assert(name.len() >= 3);
    assert forall|i: int| 0 <= i < name.len() implies #[trigger] name[i] != '/' by {
        if i < stem.len() {
            assert(name[i] == stem[i]);
        } else if i > stem.len() {
            assert(name[i] == extension[i - stem.len() - 1]);
        } else {
            assert(name[i] == '.');
        }
    }
    lemma_file_name_is_the_last_part(directory, name);
    lemma_last_dot_of(stem, extension);
    assert(name.subrange((stem.len() + 1) as int, name.len() as int) =~= extension);
    assert(path.subrange(0, (directory.len() + 1 + stem.len()) as int) + "."@ + other =~= directory + "/"@
        + (stem + "."@ + other));
}

/// A path that begins with a slash stands for itself; any other stands behind the directory,
/// with one slash between.
pub proof fn lemma_relative_path_stands_behind_the_directory(
    directory: Seq<char>,
    rest: Seq<char>,
)
    requires
        directory.len() > 0,
        directory.last() != '/',
    ensures
        rest.len() > 0 && rest[0] == '/' ==> path_joined(directory, rest) == rest,
        rest.len() == 0 || rest[0] != '/' ==> path_joined(directory, rest) == directory + "/"@
            + rest,
        (rest.len() == 0 || rest[0] != '/') ==> path_joined(directory.push('/'), rest) == directory
            + "/"@ + rest,
{
    reveal_strlit("/");
    assert(directory.push('/') + rest =~= directory + "/"@ + rest);
}

} // verus!
