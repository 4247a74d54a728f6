//! Process-relative paths.

use vstd::prelude::*;
use crate::bytes::put_bytes;

verus! {

/// Separates the components of a path.
pub const SLASH: u8 = 0x2f;

/// Stands for the same directory, and twice for the one above.
pub const DOT: u8 = 0x2e;

/// Whether a component changes nothing.
pub open spec fn is_neutral(component: Seq<u8>) -> bool {
    component.len() == 0 || component == seq![DOT]
}

/// Whether a component leads one directory up.
pub open spec fn is_parent(component: Seq<u8>) -> bool {
    component == seq![DOT, DOT]
}

/// The directories on the way after one more component.
pub open spec fn walked(stack: Seq<Seq<u8>>, component: Seq<u8>) -> Seq<Seq<u8>> {
    if is_neutral(component) {
        stack
    } else if is_parent(component) {
        if stack.len() > 0 {
            stack.drop_last()
        } else {
            stack
        }
    } else {
        stack.push(component)
    }
}

/// The directories on the way along `path` from place `at`, where `current` is
/// the component read so far.
pub open spec fn walk(path: Seq<u8>, at: int, current: Seq<u8>, stack: Seq<Seq<u8>>) -> Seq<Seq<u8>>
    decreases path.len() - at,
{
    if at >= path.len() {
        walked(stack, current)
    } else if path[at] == SLASH {
        walk(path, at + 1, Seq::empty(), walked(stack, current))
    } else {
        walk(path, at + 1, current.push(path[at]), stack)
    }
}

/// The path along these directories, each behind a slash.
pub open spec fn chained(stack: Seq<Seq<u8>>) -> Seq<u8>
    decreases stack.len(),
{
    if stack.len() == 0 {
        Seq::empty()
    } else {
        chained(stack.drop_last()) + seq![SLASH] + stack.last()
    }
}

/// The path along these directories from the root.
pub open spec fn joined(stack: Seq<Seq<u8>>) -> Seq<u8> {
    if stack.len() == 0 {
        seq![SLASH]
    } else {
        chained(stack)
    }
}

/// `path` as seen from the root if it is relative to `cwd`.
pub open spec fn combined(cwd: Seq<u8>, path: Seq<u8>) -> Seq<u8> {
    if path.len() > 0 && path[0] == SLASH {
        path
    } else if cwd == seq![SLASH] {
        cwd + path
    } else {
        cwd + seq![SLASH] + path
    }
}

/// The directories on the way to `path`.
pub open spec fn directories(path: Seq<u8>) -> Seq<Seq<u8>> {
    walk(path, 0, Seq::empty(), Seq::empty())
}

/// `path` in the global namespace.
pub open spec fn resolved(cwd: Seq<u8>, path: Seq<u8>) -> Seq<u8> {
    joined(directories(combined(cwd, path)))
}

/// Component lists, deeply viewed.
pub open spec fn parts(stack: Seq<Vec<u8>>) -> Seq<Seq<u8>> {
    stack.map_values(|v: Vec<u8>| v@)
}

fn walk_step(stack: &mut Vec<Vec<u8>>, component: Vec<u8>)
    ensures
        parts(final(stack)@) == walked(parts(old(stack)@), component@),
{
    let neutral = component.len() == 0 || (component.len() == 1 && component[0] == DOT);
    assert(neutral == is_neutral(component@)) by {
        if component@.len() == 1 && component@[0] == DOT {
            assert(component@ =~= seq![DOT]);
        }
    }
    if neutral {
        return;
    }
    let parent = component.len() == 2 && component[0] == DOT && component[1] == DOT;
    assert(parent == is_parent(component@)) by {
        if parent {
            assert(component@ =~= seq![DOT, DOT]);
        }
    }
    if parent {
        let _ = stack.pop();
        assert(parts(stack@) =~= walked(parts(old(stack)@), component@));
        return;
    }
    stack.push(component);
    assert(parts(stack@) =~= parts(old(stack)@).push(component@));
}

/// Resolves a path that is relative to `cwd` into the global namespace.
pub fn resolve_path(cwd: &[u8], path: &[u8]) -> (result: Vec<u8>)
    ensures
        result@ == resolved(cwd@, path@),
{
    let mut whole: Vec<u8> = Vec::new();
    if path.len() > 0 && path[0] == SLASH {
        put_bytes(&mut whole, path);
        assert(whole@ =~= path@);
    } else {
        put_bytes(&mut whole, cwd);
        let at_root = cwd.len() == 1 && cwd[0] == SLASH;
        assert(at_root == (cwd@ == seq![SLASH])) by {
            if at_root {
                assert(cwd@ =~= seq![SLASH]);
            }
        }
        if !at_root {
            whole.push(SLASH);
        }
        put_bytes(&mut whole, path);
        assert(whole@ =~= combined(cwd@, path@));
    }
    let mut stack: Vec<Vec<u8>> = Vec::new();
    let mut current: Vec<u8> = Vec::new();
    let mut at: usize = 0;
    assert(parts(stack@) =~= Seq::empty());
    while at < whole.len()
        invariant
            at <= whole@.len(),
            directories(whole@) == walk(whole@, at as int, current@, parts(stack@)),
        decreases whole@.len() - at,
    {
        if whole[at] == SLASH {
            walk_step(&mut stack, current);
            current = Vec::new();
        } else {
            current.push(whole[at]);
        }
        at = at + 1;
    }
    walk_step(&mut stack, current);
    if stack.len() == 0 {
        let mut root: Vec<u8> = Vec::new();
        root.push(SLASH);
        assert(root@ =~= seq![SLASH]);
        return root;
    }
    let mut result: Vec<u8> = Vec::new();
    let mut next: usize = 0;
    let ghost all = parts(stack@);
    while next < stack.len()
        invariant
            next <= stack@.len(),
            all == parts(stack@),
            result@ == chained(all.take(next as int)),
        decreases stack@.len() - next,
    {
        proof {
            let longer = all.take(next + 1);
            assert(longer.drop_last() =~= all.take(next as int));
            assert(longer.last() == stack@[next as int]@);
        }
        result.push(SLASH);
        put_bytes(&mut result, &stack[next]);
        assert(result@ =~= chained(all.take(next as int)) + seq![SLASH] + stack@[next as int]@);
        next = next + 1;
    }
    assert(all.take(next as int) =~= all);
    result
}

/// Whether a component names an entry of its directory.
pub open spec fn is_plain(component: Seq<u8>) -> bool {
    &&& !is_neutral(component)
    &&& !is_parent(component)
    &&& !component.contains(SLASH)
}

/// Whether all components are plain.
pub open spec fn all_plain(stack: Seq<Seq<u8>>) -> bool {
    forall|i: int| 0 <= i < stack.len() ==> is_plain(#[trigger] stack[i])
}

proof fn lemma_walk_plain(path: Seq<u8>, at: int, current: Seq<u8>, stack: Seq<Seq<u8>>)
    requires
        all_plain(stack),
        !current.contains(SLASH),
    ensures
        all_plain(walk(path, at, current, stack)),
    decreases path.len() - at,
{
    assert(all_plain(walked(stack, current)));
    if at < path.len() {
        if path[at] == SLASH {
            lemma_walk_plain(path, at + 1, Seq::empty(), walked(stack, current));
        } else {
            let longer = current.push(path[at]);
            assert(!longer.contains(SLASH)) by {
                if longer.contains(SLASH) {
                    let k = choose|k: int| 0 <= k < longer.len() && longer[k] == SLASH;
                    if k < current.len() {
                        assert(current[k] == SLASH);
                    }
                }
            }
            lemma_walk_plain(path, at + 1, longer, stack);
        }
    }
}

/// Walking over a slash-free stretch collects it.
proof fn lemma_walk_stretch(path: Seq<u8>, at: int, end: int, current: Seq<u8>, stack: Seq<Seq<u8>>)
    requires
        0 <= at <= end <= path.len(),
        forall|k: int| at <= k < end ==> path[k] != SLASH,
    ensures
        walk(path, at, current, stack) == walk(
            path,
            end,
            current + path.subrange(at, end),
            stack,
        ),
    decreases end - at,
{
    if at == end {
        assert(current + path.subrange(at, end) =~= current);
    } else {
        lemma_walk_stretch(path, at + 1, end, current.push(path[at]), stack);
        assert(current.push(path[at]) + path.subrange(at + 1, end) =~= current + path.subrange(
            at,
            end,
        ));
    }
}

/// Walking along a chain of plain directories visits exactly those.
proof fn lemma_walk_chain(path: Seq<u8>, at: int, done: Seq<Seq<u8>>, todo: Seq<Seq<u8>>)
    requires
        all_plain(todo),
        0 <= at <= path.len(),
        path.skip(at) == chained(todo),
        todo.len() > 0,
    ensures
        walk(path, at, Seq::empty(), done) == done + todo,
    decreases todo.len(),
{
    let first = todo[0];
    let rest = todo.skip(1);
    lemma_chain_front(todo);
    assert(chained(todo) == seq![SLASH] + first + chained(rest));
    let tail = path.skip(at);
    assert(tail.len() == 1 + first.len() + chained(rest).len());
    assert(tail.len() == path.len() - at);
    assert(tail[0] == SLASH);
    assert(path[at] == SLASH);
    assert(walked(done, Seq::empty()) == done);
    let end = at + 1 + first.len();
    assert forall|k: int| at + 1 <= k < end implies path[k] != SLASH by {
        assert(path[k] == tail[k - at]);
        assert(tail[k - at] == first[k - at - 1]);
        if path[k] == SLASH {
            assert(first.contains(SLASH));
        }
    }
    lemma_walk_stretch(path, at + 1, end as int, Seq::empty(), done);
    assert(Seq::<u8>::empty() + path.subrange(at + 1, end as int) =~= first) by {
        assert forall|k: int| 0 <= k < first.len() implies path[at + 1 + k] == first[k] by {
            assert(path[at + 1 + k] == tail[1 + k]);
        }
    }
    assert(path.skip(end as int) =~= chained(rest)) by {
        assert forall|k: int| 0 <= k < chained(rest).len() implies path[end + k] == chained(
            rest,
        )[k] by {
            assert(path[end + k] == tail[1 + first.len() + k]);
        }
    }
    assert(is_plain(todo[0]));
    if rest.len() == 0 {
        assert(chained(rest).len() == 0);
        assert(end == path.len());
        assert(done.push(first) =~= done + todo);
    } else {
        lemma_chain_front(rest);
        assert(path.skip(end as int)[0] == SLASH);
        assert(path[end as int] == SLASH);
        assert(all_plain(rest));
        // The slash ends the component, and the walk goes on at it.
        lemma_walk_slash(path, end as int, first, done);
        lemma_walk_chain(path, end as int, done.push(first), rest);
        assert(done.push(first) + rest =~= done + todo);
    }
}

proof fn lemma_walk_slash(path: Seq<u8>, at: int, component: Seq<u8>, stack: Seq<Seq<u8>>)
    requires
        0 <= at < path.len(),
        path[at] == SLASH,
        is_plain(component),
    ensures
        walk(path, at, component, stack) == walk(path, at, Seq::empty(), stack.push(component)),
{
    assert(walked(stack.push(component), Seq::empty()) == stack.push(component));
}

proof fn lemma_chain_front(stack: Seq<Seq<u8>>)
    requires
        stack.len() > 0,
    ensures
        chained(stack) == seq![SLASH] + stack[0] + chained(stack.skip(1)),
    decreases stack.len(),
{
    if stack.len() == 1 {
        assert(stack.drop_last() =~= Seq::empty());
        assert(stack.skip(1) =~= Seq::empty());
        assert(chained(stack) =~= seq![SLASH] + stack[0] + chained(stack.skip(1)));
    } else {
        lemma_chain_front(stack.drop_last());
        assert(stack.drop_last().skip(1) =~= stack.skip(1).drop_last());
        assert(chained(stack) =~= seq![SLASH] + stack[0] + chained(stack.skip(1)));
    }
}

/// A resolved path starts at the root, has no empty, `.` or `..` component,
/// and resolves to itself from everywhere.
pub proof fn law_resolved_path_is_stable(cwd: Seq<u8>, path: Seq<u8>, elsewhere: Seq<u8>)
    ensures
        resolved(cwd, path)[0] == SLASH,
        all_plain(directories(resolved(cwd, path))),
        resolved(elsewhere, resolved(cwd, path)) == resolved(cwd, path),
{
    let stack = directories(combined(cwd, path));
    let result = resolved(cwd, path);
    lemma_walk_plain(combined(cwd, path), 0, Seq::empty(), Seq::empty());
    if stack.len() == 0 {
        assert(result == seq![SLASH]);
        reveal_with_fuel(walk, 3);
        assert(directories(result) =~= Seq::<Seq<u8>>::empty());
    } else {
        lemma_chain_front(stack);
        assert(result.skip(0) =~= chained(stack));
        lemma_walk_chain(result, 0, Seq::empty(), stack);
        assert(Seq::<Seq<u8>>::empty() + stack =~= stack);
    }
}

proof fn lemma_walk_behind(front: Seq<u8>, path: Seq<u8>, at: int, current: Seq<u8>, stack: Seq<
    Seq<u8>,
>)
    requires
        0 <= at <= path.len(),
    ensures
        walk(front + path, front.len() + at, current, stack) == walk(path, at, current, stack),
    decreases path.len() - at,
{
    if at < path.len() {
        assert((front + path)[front.len() + at] == path[at]);
        if path[at] == SLASH {
            lemma_walk_behind(front, path, at + 1, Seq::empty(), walked(stack, current));
        } else {
            lemma_walk_behind(front, path, at + 1, current.push(path[at]), stack);
        }
    }
}

proof fn lemma_walk_in_steps(front: Seq<u8>, path: Seq<u8>, at: int, current: Seq<u8>, stack: Seq<
    Seq<u8>,
>)
    requires
        0 <= at <= front.len(),
    ensures
        walk(front + seq![SLASH] + path, at, current, stack) == walk(
            path,
            0,
            Seq::empty(),
            walk(front, at, current, stack),
        ),
    decreases front.len() - at,
{
    let whole = front + seq![SLASH] + path;
    if at < front.len() {
        assert(whole[at] == front[at]);
        if front[at] == SLASH {
            lemma_walk_in_steps(front, path, at + 1, Seq::empty(), walked(stack, current));
        } else {
            lemma_walk_in_steps(front, path, at + 1, current.push(front[at]), stack);
        }
    } else {
        assert(whole[at] == SLASH);
        lemma_walk_behind(front + seq![SLASH], path, 0, Seq::empty(), walked(stack, current));
    }
}

proof fn lemma_joined_reads_back(stack: Seq<Seq<u8>>)
    requires
        all_plain(stack),
    ensures
        directories(joined(stack)) == stack,
{
    let path = joined(stack);
    if stack.len() == 0 {
        reveal_with_fuel(walk, 3);
        assert(directories(path) =~= Seq::<Seq<u8>>::empty());
    } else {
        assert(path.skip(0) =~= chained(stack));
        lemma_walk_chain(path, 0, Seq::empty(), stack);
        assert(Seq::<Seq<u8>>::empty() + stack =~= stack);
    }
}

proof fn lemma_combined(cwd: Seq<u8>, path: Seq<u8>)
    requires
        path.len() == 0 || path[0] != SLASH,
    ensures
        directories(combined(cwd, path)) == walk(path, 0, Seq::empty(), directories(cwd)),
{
    if cwd == seq![SLASH] {
        assert(cwd + path =~= Seq::<u8>::empty() + seq![SLASH] + path);
        lemma_walk_in_steps(Seq::empty(), path, 0, Seq::empty(), Seq::empty());
        reveal_with_fuel(walk, 3);
        assert(directories(cwd) =~= Seq::<Seq<u8>>::empty());
    } else {
        lemma_walk_in_steps(cwd, path, 0, Seq::empty(), Seq::empty());
    }
}

/// A path that starts with a slash means the same from every directory, and
/// the path of a slash alone is the root.
pub proof fn law_absolute_path_ignores_directory(here: Seq<u8>, there: Seq<u8>, path: Seq<u8>)
    requires
        path.len() > 0,
        path[0] == 0x2f,
    ensures
        resolved(here, path) == resolved(there, path),
        resolved(here, seq![0x2fu8]) == seq![0x2fu8],
{
    reveal_with_fuel(walk, 3);
    assert(directories(seq![0x2fu8]) =~= Seq::<Seq<u8>>::empty());
}

/// A single name is looked up in the directory: a dot and nothing stay there,
/// two dots lead to its parent or stay in the root, and any other name leads
/// one level down.
pub proof fn law_name_is_below_directory(stack: Seq<Seq<u8>>, name: Seq<u8>)
    requires
        all_plain(stack),
        forall|i: int| 0 <= i < name.len() ==> #[trigger] name[i] != 0x2f,
    ensures
        ({
            let found = resolved(joined(stack), name);
            if name.len() == 0 || name == seq![0x2eu8] {
                found == joined(stack)
            } else if name == seq![0x2eu8, 0x2eu8] {
                found == joined(
                    if stack.len() > 0 {
                        stack.drop_last()
                    } else {
                        stack
                    },
                )
            } else {
                found == joined(stack.push(name))
            }
        }),
{
    lemma_joined_reads_back(stack);
    lemma_combined(joined(stack), name);
    lemma_walk_stretch(name, 0, name.len() as int, Seq::empty(), stack);
    assert(Seq::<u8>::empty() + name.subrange(0, name.len() as int) =~= name);
}

/// A path is followed step by step: what is behind a slash is looked up from
/// where the part in front of it leads.
pub proof fn law_path_is_followed_in_steps(cwd: Seq<u8>, front: Seq<u8>, rest: Seq<u8>)
    requires
        front.len() > 0,
        rest.len() == 0 || rest[0] != 0x2f,
    ensures
        resolved(cwd, front + seq![0x2fu8] + rest) == resolved(resolved(cwd, front), rest),
{
    let whole = front + seq![0x2fu8] + rest;
    let start = combined(cwd, front);
    assert(whole[0] == front[0]);
    assert(combined(cwd, whole) =~= start + seq![SLASH] + rest);
    lemma_walk_in_steps(start, rest, 0, Seq::empty(), Seq::empty());
    let stack = directories(start);
    lemma_walk_plain(start, 0, Seq::empty(), Seq::empty());
    lemma_joined_reads_back(stack);
    lemma_combined(joined(stack), rest);
}

/// A path is written as its names, each behind a slash, and reads back as them.
pub proof fn law_path_names_its_directories(stack: Seq<Seq<u8>>, name: Seq<u8>)
    requires
        all_plain(stack),
        is_plain(name),
    ensures
        directories(joined(stack)) == stack,
        joined(stack.push(name)) == if stack.len() == 0 {
            seq![0x2fu8] + name
        } else {
            joined(stack) + seq![0x2fu8] + name
        },
{
    lemma_joined_reads_back(stack);
    assert(stack.push(name).drop_last() =~= stack);
    assert(chained(stack.push(name)) == chained(stack) + seq![0x2fu8] + name);
    assert(Seq::<u8>::empty() + seq![0x2fu8] + name =~= seq![0x2fu8] + name);
}

} // verus!
