use vstd::prelude::*;
use vstd::string::*;

verus! {

/// The separator between the segments of a path.
pub open spec fn separator() -> char {
    '/'
}

/// The path of the root directory.
pub open spec fn root_path() -> Seq<char> {
    seq!['/']
}

/// A name is absolute when it begins with the separator.
pub open spec fn is_absolute(name: Seq<char>) -> bool {
    name.len() > 0 && name[0] == '/'
}

/// `dir` and `name` put together with exactly one separator between them.
pub open spec fn join(dir: Seq<char>, name: Seq<char>) -> Seq<char> {
    if dir == root_path() {
        root_path() + name
    } else {
        dir + root_path() + name
    }
}

/// The canonical path that `name` denotes when the cursor stands at `cwd`.
pub open spec fn resolve(cwd: Seq<char>, name: Seq<char>) -> Seq<char> {
    if is_absolute(name) {
        name
    } else {
        join(cwd, name)
    }
}

/// Whether a separator occurs anywhere in `text`.
pub open spec fn has_separator(text: Seq<char>) -> bool {
    exists|i: int| 0 <= i < text.len() && text[i] == '/'
}

/// Index of the last separator of `text`, or -1 if it has none.
pub open spec fn last_separator(text: Seq<char>) -> int
    decreases text.len(),
{
    if text.len() == 0 {
        -1
    } else if text.last() == '/' {
        text.len() - 1
    } else {
        last_separator(text.drop_last())
    }
}

/// `path` without its last segment: everything before the last separator,
/// the root for a direct child of the root, and the empty text when there is
/// nothing above `path`.
pub open spec fn parent_of(path: Seq<char>) -> Seq<char> {
    let cut = last_separator(path);
    if cut < 0 {
        Seq::empty()
    } else if cut == 0 {
        if path.len() == 1 {
            Seq::empty()
        } else {
            root_path()
        }
    } else {
        path.take(cut)
    }
}

/// The directory that holds the entry created under `name` while the cursor
/// stands at `cwd`.
pub open spec fn parent_for(cwd: Seq<char>, name: Seq<char>) -> Seq<char> {
    if is_absolute(name) {
        parent_of(name)
    } else if has_separator(name) {
        join(cwd, parent_of(name))
    } else {
        cwd
    }
}

/// Whether `path` lies below the directory `dir`: `dir`, a separator, and
/// anything after it.
pub open spec fn under(path: Seq<char>, dir: Seq<char>) -> bool {
    (dir + root_path()).is_prefix_of(path)
}

/// The last separator lies within the text, is a separator, has none after
/// it, and is there exactly when the text has a separator.
pub proof fn lemma_last_separator_bounds(text: Seq<char>)
    ensures
        -1 <= last_separator(text) < text.len(),
        last_separator(text) >= 0 ==> text[last_separator(text)] == '/',
        forall|i: int| last_separator(text) < i < text.len() ==> text[i] != '/',
        has_separator(text) <==> last_separator(text) >= 0,
    decreases text.len(),
{
    if text.len() > 0 && text.last() != '/' {
        lemma_last_separator_bounds(text.drop_last());
        let cut = last_separator(text);
        if cut >= 0 {
            assert(text[cut] == text.drop_last()[cut]);
        }
        assert forall|i: int| cut < i < text.len() implies text[i] != '/' by {
            if i < text.len() - 1 {
                assert(text[i] == text.drop_last()[i]);
            }
        }
        if has_separator(text) {
            let i = choose|i: int| 0 <= i < text.len() && text[i] == '/';
            assert(text.drop_last()[i] == '/');
        }
    }
}

/// Whether two texts hold the same characters.
pub fn text_eq(a: &str, b: &str) -> (same: bool)
    ensures
        same == (a@ == b@),
{
    String::from_str(a) == String::from_str(b)
}

/// Whether `name` begins with the separator.
pub fn starts_at_root(name: &str) -> (absolute: bool)
    ensures
        absolute == is_absolute(name@),
{
    name.unicode_len() > 0 && name.get_char(0) == '/'
}

/// Position of the last separator in `text`, if it has one.
pub fn find_last_separator(text: &str) -> (found: Option<usize>)
    ensures
        match found {
            Some(i) => i == last_separator(text@),
            None => last_separator(text@) == -1,
        },
{
    let n = text.unicode_len();
    let mut found: Option<usize> = None;
    let mut i: usize = 0;
    while i < n
        invariant
            i <= n,
            n == text@.len(),
            match found {
                Some(j) => j == last_separator(text@.take(i as int)),
                None => last_separator(text@.take(i as int)) == -1,
            },
        decreases n - i,
    {
        let c = text.get_char(i);
        proof {
            let next = text@.take(i + 1);
            assert(next.drop_last() =~= text@.take(i as int));
            assert(next.last() == c);
        }
        if c == '/' {
            found = Some(i);
        }
        i += 1;
    }
    proof {
        assert(text@.take(n as int) =~= text@);
    }
    found
}

/// Whether `text` holds a separator.
pub fn contains_separator(text: &str) -> (found: bool)
    ensures
        found == has_separator(text@),
{
    proof {
        lemma_last_separator_bounds(text@);
    }
    find_last_separator(text).is_some()
}

/// The path above `path`.
pub fn parent_path(path: &str) -> (parent: String)
    ensures
        parent@ == parent_of(path@),
{
    proof {
        lemma_last_separator_bounds(path@);
    }
    match find_last_separator(path) {
        None => String::new(),
        Some(cut) => {
            if cut == 0 {
                if path.unicode_len() == 1 {
                    String::new()
                } else {
                    proof {
                        reveal_strlit("/");
                        assert("/"@ =~= root_path());
                    }
                    String::from_str("/")
                }
            } else {
                String::from_str(path.substring_char(0, cut))
            }
        },
    }
}

/// Joins a directory and a name with one separator.
pub fn join_paths(dir: &str, name: &str) -> (joined: String)
    ensures
        joined@ == join(dir@, name@),
{
    proof {
        reveal_strlit("/");
        assert("/"@ =~= root_path());
    }
    if text_eq(dir, "/") {
        String::from_str("/").concat(name)
    } else {
        String::from_str(dir).concat("/").concat(name)
    }
}

/// Resolves `name` against the cursor `cwd`.
pub fn resolve_path(cwd: &str, name: &str) -> (full: String)
    ensures
        full@ == resolve(cwd@, name@),
{
    if starts_at_root(name) {
        String::from_str(name)
    } else {
        join_paths(cwd, name)
    }
}

/// Whether `path` lies below the directory `dir`.
pub fn is_under(path: &str, dir: &str) -> (below: bool)
    ensures
        below == under(path@, dir@),
{
    proof {
        reveal_strlit("/");
        assert("/"@ =~= root_path());
    }
    let prefix = String::from_str(dir).concat("/");
    let n = prefix.as_str().unicode_len();
    if path.unicode_len() < n {
        false
    } else {
        text_eq(path.substring_char(0, n), prefix.as_str())
    }
}

} // verus!
