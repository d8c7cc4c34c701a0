use vstd::prelude::*;
use crate::text::characters;

verus! {

/// Where the components of a path begin: after the root, or after a leading
/// dot that stands for the current directory.
pub open spec fn body_start(path: Seq<char>) -> nat {
    if path.len() > 0 && path[0] == '/' {
        1
    } else if path.len() > 0 && path[0] == '.' && (path.len() == 1 || path[1] == '/') {
        1
    } else {
        0
    }
}

/// The place of the last separator from `base` on; `base` where there is none.
pub open spec fn last_cut(path: Seq<char>, base: nat) -> nat
    decreases path.len(),
{
    if path.len() <= base {
        base
    } else if path.last() == '/' {
        (path.len() - 1) as nat
    } else {
        last_cut(path.drop_last(), base)
    }
}

/// The last component of the part of a path that begins at `base`.
pub open spec fn last_component(path: Seq<char>, base: nat) -> Seq<char> {
    let cut = last_cut(path, base);
    if cut < path.len() && path[cut as int] == '/' {
        path.skip((cut + 1) as int)
    } else {
        path.skip(cut as int)
    }
}

/// A component that names nothing: it is empty or the current directory.
pub open spec fn is_idle(component: Seq<char>) -> bool {
    component.len() == 0 || component == seq!['.']
}

proof fn lemma_last_cut(path: Seq<char>, base: nat)
    requires
        base < path.len(),
    ensures
        base <= last_cut(path, base) < path.len(),
        last_cut(path, base) == base || path[last_cut(path, base) as int] == '/',
        forall|i: int| last_cut(path, base) < i < path.len() ==> path[i] != '/',
    decreases path.len(),
{
    if path.last() != '/' {
        let shorter = path.drop_last();
        if base < shorter.len() {
            lemma_last_cut(shorter, base);
            assert forall|i: int| last_cut(path, base) < i < path.len() implies path[i] != '/' by {
                if i < shorter.len() {
                    assert(shorter[i] == path[i]);
                }
            }
        } else {
            assert(last_cut(shorter, base) == base);
        }
    }
}

/// A path without the components at its end that name nothing.
pub open spec fn trimmed(path: Seq<char>, base: nat) -> Seq<char>
    decreases path.len(),
{
    if path.len() <= base || !is_idle(last_component(path, base)) {
        path
    } else {
        let cut = last_cut(path, base);
        if cut < path.len() {
            trimmed(path.take(cut as int), base)
        } else {
            path
        }
    }
}

/// The path without its last component; nothing where it has none.
pub open spec fn parent(path: Seq<char>) -> Option<Seq<char>> {
    let base = body_start(path);
    let whole = trimmed(path, base);
    if whole.len() > base {
        Some(trimmed(whole.take(last_cut(whole, base) as int), base))
    } else if whole.len() == 0 || whole[0] == '/' {
        None
    } else {
        Some(Seq::empty())
    }
}

/// A file of the given name in a directory.
pub open spec fn in_directory(directory: Seq<char>, name: Seq<char>) -> Seq<char> {
    if directory.len() == 0 || directory.last() == '/' {
        directory + name
    } else {
        directory + "/"@ + name
    }
}

/// The file name of the sidecar library.
pub open spec fn sidecar_name() -> Seq<char> {
    "librecognize_documents.dylib"@
}

/// Where the sidecar library lies beside the file `image`.
pub open spec fn sidecar_beside(image: Option<Seq<char>>) -> Option<Seq<char>> {
    match image {
        Some(path) => match parent(path) {
            Some(directory) => Some(in_directory(directory, sidecar_name())),
            None => None,
        },
        None => None,
    }
}

/// The place of the last separator of the first `len` characters from `base`
/// on.
fn find_cut(path: &Vec<char>, len: usize, base: usize) -> (r: usize)
    requires
        base < len <= path.len(),
    ensures
        r == last_cut(path@.take(len as int), base as nat),
        base <= r < len,
{
    let mut end: usize = len;
    proof {
        lemma_last_cut(path@.take(len as int), base as nat);
    }
    while end > base
        invariant
            base <= end <= len <= path.len(),
            base < len,
            last_cut(path@.take(len as int), base as nat) == last_cut(
                path@.take(end as int),
                base as nat,
            ),
        decreases end,
    {
        assert(path@.take(end as int).last() == path@[end - 1]);
        if path[end - 1] == '/' {
            return end - 1;
        }
        assert(path@.take(end as int).drop_last() =~= path@.take(end - 1));
        end = end - 1;
    }
    base
}

/// Drops the components at the end that name nothing.
fn trim(path: &Vec<char>, len: usize, base: usize) -> (r: usize)
    requires
        base <= len <= path.len(),
    ensures
        base <= r <= len,
        path@.take(r as int) == trimmed(path@.take(len as int), base as nat),
{
    let mut end: usize = len;
    while end > base
        invariant
            base <= end <= len <= path.len(),
            trimmed(path@.take(end as int), base as nat) == trimmed(
                path@.take(len as int),
                base as nat,
            ),
        decreases end,
    {
        let ghost current = path@.take(end as int);
        let cut = find_cut(path, end, base);
        let start: usize = if path[cut] == '/' {
            cut + 1
        } else {
            cut
        };
        let ghost component = last_component(current, base as nat);
        assert(component == current.skip(start as int));
        let idle: bool = start == end || (start + 1 == end && path[start] == '.');
        proof {
            if start + 1 == end {
                assert(component.len() == 1 && component[0] == path@[start as int]);
                assert(path@[start as int] == '.' ==> component =~= seq!['.']);
            }
            assert(idle == is_idle(component));
        }
        if !idle {
            return end;
        }
        assert(current.take(cut as int) =~= path@.take(cut as int));
        end = cut;
    }
    end
}

/// Where the sidecar library lies: beside `image`, the file that holds the
/// running program code, if that is known.
pub fn sidecar_path(image: Option<String>) -> (r: Option<String>)
    ensures
        match r {
            Some(path) => sidecar_beside(
                match image {
                    Some(i) => Some(i@),
                    None => None,
                },
            ) == Some(path@),
            None => sidecar_beside(
                match image {
                    Some(i) => Some(i@),
                    None => None,
                },
            ) is None,
        },
{
    let image = match image {
        Some(image) => image,
        None => return None,
    };
    let path = characters(image.as_str());
    let base: usize = if path.len() > 0 && (path[0] == '/' || (path[0] == '.' && (path.len() == 1
        || path[1] == '/'))) {
        1
    } else {
        0
    };
    assert(base == body_start(path@));
    assert(path@.take(path.len() as int) =~= path@);
    let whole = trim(&path, path.len(), base);
    let directory: usize = if whole > base {
        let cut = find_cut(&path, whole, base);
        assert(path@.take(whole as int).take(cut as int) =~= path@.take(cut as int));
        trim(&path, cut, base)
    } else if whole == 0 || path[0] == '/' {
        return None;
    } else {
        assert(path@.take(0) =~= Seq::<char>::empty());
        0
    };
    let mut r = String::new();
    r.append(image.as_str().substring_char(0, directory));
    assert(r@ =~= path@.take(directory as int));
    if directory > 0 && path[directory - 1] != '/' {
        r.append("/");
    }
    r.append("librecognize_documents.dylib");
    Some(r)
}

/// The last separator stands before a file name.
proof fn lemma_cut_before_name(front: Seq<char>, name: Seq<char>, base: nat)
    requires
        front.len() > 0,
        front.last() == '/',
        front.len() >= base,
        !name.contains('/'),
    ensures
        last_cut(front + name, base) == if front.len() > base {
            (front.len() - 1) as nat
        } else {
            base
        },
    decreases name.len(),
{
    if name.len() == 0 {
        assert(front + name =~= front);
    } else {
        let shorter = name.drop_last();
        assert(name.contains(name.last()));
        assert forall|i: int| 0 <= i < shorter.len() implies shorter[i] != '/' by {
            assert(name.contains(name[i]));
        }
        assert((front + name).drop_last() =~= front + shorter);
        lemma_cut_before_name(front, shorter, base);
    }
}

/// The sidecar library lies beside the file that holds the program code: for a
/// file in a directory, it is the file of its own name in the same directory.
/// The directory is written without components at its end that name nothing.
pub proof fn law_sidecar_is_a_sibling(directory: Seq<char>, name: Seq<char>)
    requires
        directory.len() > body_start(directory),
        trimmed(directory, body_start(directory)) == directory,
        directory.last() != '/',
        name.len() > 0,
        !name.contains('/'),
        name != seq!['.'],
    ensures
        sidecar_beside(Some(directory + seq!['/'] + name)) == Some(
            directory + seq!['/'] + sidecar_name(),
        ),
{
    let front = directory + seq!['/'];
    let path = front + name;
    let base = body_start(directory);
    reveal_strlit("/");
    assert("/"@ =~= seq!['/']);
    assert(path[0] == directory[0]);
    if directory.len() > 1 {
        assert(path[1] == directory[1]);
    }
    assert(body_start(path) == base);
    lemma_cut_before_name(front, name, base);
    assert(path[directory.len() as int] == '/');
    assert(last_component(path, base) =~= name);
    assert(trimmed(path, base) == path);
    assert(path.take(directory.len() as int) =~= directory);
}

/// For a file in the root directory, the sidecar library lies in the root
/// directory.
pub proof fn law_sidecar_may_lie_in_the_root(name: Seq<char>)
    requires
        name.len() > 0,
        !name.contains('/'),
        name != seq!['.'],
    ensures
        sidecar_beside(Some(seq!['/'] + name)) == Some(seq!['/'] + sidecar_name()),
{
    let front = seq!['/'];
    let path = front + name;
    lemma_cut_before_name(front, name, 1);
    assert(name.contains(name[0]));
    assert(last_component(path, 1) =~= name);
    assert(trimmed(path, 1) == path);
    assert(path.take(1) =~= front);
}

/// A name of a file: not empty, without a separator, and not the mark of the
/// current directory.
pub open spec fn is_file_name(name: Seq<char>) -> bool {
    name.len() > 0 && !name.contains('/') && name != seq!['.']
}

/// The directory of a file that is written after a separator.
proof fn lemma_directory_before_name(front: Seq<char>, name: Seq<char>)
    requires
        front.len() > 0,
        front.last() == '/',
        is_file_name(name),
    ensures
        ({
            let base = body_start(front);
            let cut: nat = if front.len() > base {
                (front.len() - 1) as nat
            } else {
                base
            };
            sidecar_beside(Some(front + name)) == Some(
                in_directory(trimmed(front.take(cut as int), base), sidecar_name()),
            )
        }),
{
    let path = front + name;
    let base = body_start(front);
    assert(path[0] == front[0]);
    if front.len() > 1 {
        assert(path[1] == front[1]);
    }
    assert(body_start(path) == base);
    lemma_cut_before_name(front, name, base);
    assert(name.contains(name[0]));
    assert(last_component(path, base) =~= name);
    assert(trimmed(path, base) == path);
    let cut: int = if front.len() > base {
        front.len() - 1
    } else {
        base as int
    };
    assert(path.take(cut) =~= front.take(cut));
}

/// The name of the file does not matter, only the directory it is in.
pub proof fn law_file_name_does_not_matter(front: Seq<char>, name: Seq<char>, other: Seq<char>)
    requires
        front.len() > 0,
        front.last() == '/',
        is_file_name(name),
        is_file_name(other),
    ensures
        sidecar_beside(Some(front + name)) is Some,
        sidecar_beside(Some(front + name)) == sidecar_beside(Some(front + other)),
{
    lemma_directory_before_name(front, name);
    lemma_directory_before_name(front, other);
}

/// A file that is named without a directory has the sidecar library beside it,
/// named without a directory too. A file that is written as lying in the current
/// directory has it there.
pub proof fn law_sidecar_of_a_bare_name(name: Seq<char>)
    requires
        is_file_name(name),
    ensures
        sidecar_beside(Some(name)) == Some("librecognize_documents.dylib"@),
        sidecar_beside(Some(seq!['.', '/'] + name)) == Some(
            seq!['.', '/'] + "librecognize_documents.dylib"@,
        ),
{
    let none = Seq::<char>::empty();
    lemma_no_cut(name);
    assert(name.contains(name[0]));
    if name.len() > 1 {
        assert(name.contains(name[1]));
    } else if name[0] == '.' {
        assert(name =~= seq!['.']);
    }
    assert(body_start(name) == 0);
    assert(last_component(name, 0) =~= name);
    assert(name.take(0) =~= none);
    assert(none + sidecar_name() =~= sidecar_name());
    let front = seq!['.', '/'];
    lemma_directory_before_name(front, name);
    assert(front.take(1) =~= seq!['.']);
    reveal_strlit("/");
    assert(seq!['.'] + "/"@ =~= front);
}

/// Without a separator there is no cut.
proof fn lemma_no_cut(name: Seq<char>)
    requires
        !name.contains('/'),
    ensures
        last_cut(name, 0) == 0,
    decreases name.len(),
{
    if name.len() > 0 {
        assert(name.contains(name.last()));
        let shorter = name.drop_last();
        assert forall|i: int| 0 <= i < shorter.len() implies shorter[i] != '/' by {
            assert(name.contains(name[i]));
        }
        lemma_no_cut(shorter);
    }
}

/// Where the file is not known, or is the root or nothing at all, there is no
/// place for the sidecar library. The current directory has it in itself.
pub proof fn law_no_directory_no_sidecar()
    ensures
        sidecar_beside(None) is None,
        sidecar_beside(Some(Seq::empty())) is None,
        sidecar_beside(Some(seq!['/'])) is None,
        sidecar_beside(Some(seq!['.'])) == Some("librecognize_documents.dylib"@),
{
    let none = Seq::<char>::empty();
    assert(trimmed(seq!['/'], 1) == seq!['/']);
    assert(trimmed(seq!['.'], 1) == seq!['.']);
    assert(none + sidecar_name() =~= sidecar_name());
}

/// A separator, or the mark of the current directory, at the end of a path or
/// behind another separator names nothing and changes nothing.
pub proof fn law_idle_components_change_nothing(path: Seq<char>, name: Seq<char>)
    requires
        path.len() > 0,
        is_file_name(name),
    ensures
        sidecar_beside(Some(path + seq!['/'])) == sidecar_beside(Some(path)),
        sidecar_beside(Some(path + seq!['/', '.'])) == sidecar_beside(Some(path)),
        path.last() == '/' ==> sidecar_beside(Some(path + seq!['/'] + name)) == sidecar_beside(
            Some(path + name),
        ),
        path.last() == '/' ==> sidecar_beside(Some(path + seq!['.', '/'] + name))
            == sidecar_beside(Some(path + name)),
{
    let base = body_start(path);
    lemma_idle_end(path, base);
    let slashed = path + seq!['/'];
    let dotted = path + seq!['/', '.'];
    assert(slashed[0] == path[0] && dotted[0] == path[0]);
    if path.len() > 1 {
        assert(slashed[1] == path[1] && dotted[1] == path[1]);
    } else {
        assert(slashed[1] == '/' && dotted[1] == '/');
    }
    assert(body_start(slashed) == base);
    assert(body_start(dotted) == base);
    if path.last() == '/' {
        let here = path + seq!['.', '/'];
        assert(here[0] == path[0]);
        if path.len() > 1 {
            assert(here[1] == path[1]);
        }
        assert(body_start(here) == base);
        lemma_directory_before_name(path, name);
        lemma_directory_before_name(slashed, name);
        lemma_directory_before_name(here, name);
        assert(slashed.take(path.len() as int) =~= path);
        assert(here.take((path.len() + 1) as int) =~= path + seq!['.']);
        lemma_idle_after_separator(path, base);
    }
}

/// Idle components at the end are trimmed.
proof fn lemma_idle_end(path: Seq<char>, base: nat)
    requires
        base <= path.len(),
    ensures
        trimmed(path + seq!['/'], base) == trimmed(path, base),
        trimmed(path + seq!['/', '.'], base) == trimmed(path, base),
{
    let slashed = path + seq!['/'];
    assert(last_cut(slashed, base) == path.len());
    assert(last_component(slashed, base) =~= Seq::<char>::empty());
    assert(slashed.take(path.len() as int) =~= path);
    let dotted = path + seq!['/', '.'];
    assert(dotted.drop_last() =~= slashed);
    assert(last_cut(dotted, base) == path.len());
    assert(last_component(dotted, base) =~= seq!['.']);
    assert(dotted.take(path.len() as int) =~= path);
}

/// Idle components behind a separator are trimmed.
proof fn lemma_idle_after_separator(path: Seq<char>, base: nat)
    requires
        0 < path.len(),
        base <= path.len(),
        path.last() == '/',
    ensures
        ({
            let cut: int = if path.len() > base {
                path.len() - 1
            } else {
                base as int
            };
            &&& trimmed(path, base) == trimmed(path.take(cut), base)
            &&& trimmed(path + seq!['.'], base) == trimmed(path.take(cut), base)
        }),
{
    let dotted = path + seq!['.'];
    assert(dotted.drop_last() =~= path);
    if path.len() > base {
        let shorter = path.take(path.len() - 1);
        assert(shorter + seq!['/'] =~= path);
        assert(shorter + seq!['/', '.'] =~= dotted);
        lemma_idle_end(shorter, base);
    } else {
        assert(path.take(base as int) =~= path);
        assert(last_cut(path, base) == base);
        assert(last_cut(dotted, base) == base);
        assert(last_component(dotted, base) =~= seq!['.']);
        assert(dotted.take(base as int) =~= path);
    }
}

/// The sidecar library is found under its own name, in a directory that is the
/// beginning of the path of the file.
pub proof fn law_sidecar_has_its_own_name(front: Seq<char>, name: Seq<char>)
    requires
        front.len() > 0,
        front.last() == '/',
        is_file_name(name),
    ensures
        sidecar_beside(Some(front + name)) matches Some(place) && exists|n: int|
            #![trigger front.take(n)]
            {
                &&& 0 <= n <= front.len()
                &&& place == front.take(n) + "librecognize_documents.dylib"@ || place
                    == front.take(n).push('/') + "librecognize_documents.dylib"@
            },
{
    lemma_directory_before_name(front, name);
    let base = body_start(front);
    let cut: int = if front.len() > base {
        front.len() - 1
    } else {
        base as int
    };
    lemma_trimmed_is_a_beginning(front.take(cut), base);
    let directory = trimmed(front.take(cut), base);
    let n = directory.len() as int;
    assert(directory =~= front.take(n));
    reveal_strlit("/");
    assert(directory + "/"@ =~= directory.push('/'));
}

/// Trimming takes away from the end.
proof fn lemma_trimmed_is_a_beginning(path: Seq<char>, base: nat)
    ensures
        trimmed(path, base).len() <= path.len(),
        trimmed(path, base) == path.take(trimmed(path, base).len() as int),
    decreases path.len(),
{
    if path.len() <= base || !is_idle(last_component(path, base)) {
        assert(path.take(path.len() as int) =~= path);
    } else {
        let cut = last_cut(path, base);
        if cut < path.len() {
            let shorter = path.take(cut as int);
            lemma_trimmed_is_a_beginning(shorter, base);
            let n = trimmed(shorter, base).len() as int;
            assert(shorter.take(n) =~= path.take(n));
        } else {
            assert(path.take(path.len() as int) =~= path);
        }
    }
}

/// For a file in a directory the sidecar library lies in the same directory,
/// written in the same way, however deep the directory lies.
pub proof fn law_sidecar_shares_the_directory(
    front: Seq<char>,
    directory: Seq<char>,
    name: Seq<char>,
)
    requires
        front.len() == 0 || front.last() == '/',
        is_file_name(directory),
        is_file_name(name),
    ensures
        sidecar_beside(Some(front + directory + seq!['/'] + name)) == Some(
            front + directory + seq!['/'] + "librecognize_documents.dylib"@,
        ),
{
    let whole = front + directory;
    assert(directory.contains(directory[0]));
    assert(directory.contains(directory.last()));
    assert(whole.last() == directory.last());
    if front.len() == 0 {
        assert(whole =~= directory);
        lemma_no_cut(directory);
        if directory.len() > 1 {
            assert(directory.contains(directory[1]));
        } else if directory[0] == '.' {
            assert(directory =~= seq!['.']);
        }
        assert(last_component(whole, 0) =~= directory);
    } else {
        let base = body_start(front);
        assert(whole[0] == front[0]);
        if front.len() > 1 {
            assert(whole[1] == front[1]);
        }
        assert(body_start(whole) == base);
        lemma_cut_before_name(front, directory, base);
        assert(last_component(whole, base) =~= directory);
    }
    law_sidecar_is_a_sibling(whole, name);
}

} // verus!
