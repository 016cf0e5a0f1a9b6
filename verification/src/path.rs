//! Path resolution and the search path.
use crate::bytes::{
    cut, cut_copy, emit, emit_slice, filled, find_byte, first_index, lemma_filled_cut,
    lemma_filled_empty, lemma_first_index, lemma_first_index_is, views, COLON, DOT, SLASH,
};
use vstd::prelude::*;

verus! {

/// Maximum length of the current working directory string.
pub const MAX_CWD: usize = 256;

/// Room for a path before it is normalised: twice [`MAX_CWD`].
pub const MAX_JOINED: usize = 512;

/// Maximum number of components in a normalised path.
pub const MAX_DEPTH: usize = 32;

/// Maximum length of one component of a normalised path.
pub const MAX_COMPONENT: usize = 64;

// Normalisation ----------------------------------------------------------------

/// The components of a path once it has entered `seg`: an empty segment and
/// `.` stay, `..` leaves the last component, anything else is added.  A
/// component is cut to [`MAX_COMPONENT`] bytes, and one that would exceed
/// [`MAX_DEPTH`] is dropped.
pub open spec fn enter(stack: Seq<Seq<u8>>, seg: Seq<u8>) -> Seq<Seq<u8>> {
    if seg.len() == 0 || seg == seq![DOT] {
        stack
    } else if seg == seq![DOT, DOT] {
        if stack.len() > 0 {
            stack.drop_last()
        } else {
            stack
        }
    } else if stack.len() < MAX_DEPTH {
        stack.push(cut(seg, MAX_COMPONENT as int))
    } else {
        stack
    }
}

/// The components reached from `stack` by following the segments of `path`
/// one after the other.
pub open spec fn walk(stack: Seq<Seq<u8>>, path: Seq<u8>) -> Seq<Seq<u8>>
    decreases path.len(),
{
    let k = first_index(path, SLASH) as int;
    if k >= path.len() {
        enter(stack, path)
    } else {
        walk(enter(stack, path.take(k)), path.skip(k + 1))
    }
}

/// The components with a `/` between each two.
pub open spec fn joined(stack: Seq<Seq<u8>>) -> Seq<u8>
    decreases stack.len(),
{
    if stack.len() == 0 {
        Seq::empty()
    } else if stack.len() == 1 {
        stack[0]
    } else {
        joined(stack.drop_last()) + seq![SLASH] + stack.last()
    }
}

/// The absolute path with the given components.
pub open spec fn render(stack: Seq<Seq<u8>>) -> Seq<u8> {
    seq![SLASH] + joined(stack)
}

/// `path` as an absolute path without empty, `.` and `..` components.
pub open spec fn normalized(path: Seq<u8>) -> Seq<u8> {
    render(walk(Seq::empty(), path))
}

/// Whether `seg` is the single byte `.`.
fn is_dot(seg: &[u8]) -> (r: bool)
    ensures
        r == (seg@ == seq![DOT]),
{
    if seg.len() == 1 && seg[0] == DOT {
        assert(seg@ =~= seq![DOT]);
        true
    } else {
        false
    }
}

/// Whether `seg` is `..`.
fn is_dot_dot(seg: &[u8]) -> (r: bool)
    ensures
        r == (seg@ == seq![DOT, DOT]),
{
    if seg.len() == 2 && seg[0] == DOT && seg[1] == DOT {
        assert(seg@ =~= seq![DOT, DOT]);
        true
    } else {
        false
    }
}

/// Normalise a path by resolving `.` and `..` components.  Writes the result
/// into `out`, as far as there is room, and returns the number of bytes
/// written.
pub fn normalize_path(path: &[u8], out: &mut [u8]) -> (r: usize)
    ensures
        filled(old(out)@, final(out)@, r as int, normalized(path@)),
{
    let mut stack: Vec<Vec<u8>> = Vec::new();
    let mut i: usize = 0;
    let mut last: bool = false;
    assert(views(stack@) =~= Seq::<Seq<u8>>::empty());
    assert(path@.skip(0) =~= path@);
    while !last
        invariant
            i <= path@.len(),
            !last ==> walk(Seq::empty(), path@) == walk(views(stack@), path@.skip(i as int)),
            last ==> walk(Seq::empty(), path@) == views(stack@),
        decreases path@.len() - i, if last { 0int } else { 1int },
    {
        let start: usize = i;
        let end: usize = find_byte(path, i, SLASH);
        let seg: &[u8] = &path[start..end];
        let ghost rest = path@.skip(start as int);
        let ghost before = views(stack@);
        proof {
            lemma_first_index(rest, SLASH);
            assert(seg@ =~= rest.take(end - start));
            if end == path@.len() {
                assert(seg@ =~= rest);
            } else {
                assert(rest.skip(end - start + 1) =~= path@.skip(end + 1));
            }
        }
        if end < path.len() {
            i = end + 1;
        } else {
            i = end;
            last = true;
        }
        if seg.len() == 0 || is_dot(seg) {
        } else if is_dot_dot(seg) {
            if stack.len() > 0 {
                let _ = stack.pop();
                assert(views(stack@) =~= before.drop_last());
            }
        } else if stack.len() < MAX_DEPTH {
            stack.push(cut_copy(seg, MAX_COMPONENT));
            assert(views(stack@) =~= before.push(cut(seg@, MAX_COMPONENT as int)));
        }
        assert(views(stack@) == enter(before, seg@));
    }
    let ghost comps = views(stack@);
    let ghost out0 = out@;
    proof {
        lemma_filled_empty(out0);
    }
    let mut j: usize = emit(out, 0, SLASH, Ghost(out0), Ghost(Seq::empty()));
    assert(Seq::<u8>::empty().push(SLASH) =~= render(comps.take(0)));
    let mut d: usize = 0;
    while d < stack.len()
        invariant
            d <= stack@.len(),
            comps == views(stack@),
            filled(
                out0,
                out@,
                j as int,
                if 0 < d < stack@.len() {
                    render(comps.take(d as int)).push(SLASH)
                } else {
                    render(comps.take(d as int))
                },
            ),
        decreases stack@.len() - d,
    {
        let ghost so_far = if 0 < d {
            render(comps.take(d as int)).push(SLASH)
        } else {
            render(comps.take(d as int))
        };
        j = emit_slice(out, j, stack[d].as_slice(), Ghost(out0), Ghost(so_far));
        assert(comps.take(d + 1).drop_last() =~= comps.take(d as int));
        assert(so_far + stack@[d as int]@ =~= render(comps.take(d + 1)));
        if d + 1 < stack.len() {
            j = emit(out, j, SLASH, Ghost(out0), Ghost(render(comps.take(d + 1))));
        }
        d += 1;
    }
    assert(comps.take(d as int) =~= comps);
    j
}

// Resolution -------------------------------------------------------------------

/// `rel` as seen from `base`, before normalisation.
pub open spec fn relative_to(base: Seq<u8>, rel: Seq<u8>) -> Seq<u8> {
    if rel.len() > 0 && rel[0] == SLASH {
        rel
    } else if base.len() > 0 && base.last() != SLASH {
        base.push(SLASH) + rel
    } else {
        base + rel
    }
}

/// The normalised absolute path of `rel` as seen from `base`.
pub open spec fn resolved(base: Seq<u8>, rel: Seq<u8>) -> Seq<u8> {
    normalized(cut(relative_to(base, rel), MAX_JOINED as int))
}

/// Write `rel` as seen from `base` into `out`, as far as there is room.
/// Returns the number of bytes written.
fn put_relative(base: &[u8], rel: &[u8], out: &mut [u8]) -> (r: usize)
    ensures
        filled(old(out)@, final(out)@, r as int, relative_to(base@, rel@)),
{
    let ghost out0 = out@;
    proof {
        lemma_filled_empty(out0);
    }
    if rel.len() > 0 && rel[0] == SLASH {
        assert(Seq::<u8>::empty() + rel@ =~= rel@);
        emit_slice(out, 0, rel, Ghost(out0), Ghost(Seq::empty()))
    } else {
        let len: usize = emit_slice(out, 0, base, Ghost(out0), Ghost(Seq::empty()));
        assert(Seq::<u8>::empty() + base@ =~= base@);
        if base.len() > 0 && base[base.len() - 1] != SLASH {
            let len: usize = emit(out, len, SLASH, Ghost(out0), Ghost(base@));
            emit_slice(out, len, rel, Ghost(out0), Ghost(base@.push(SLASH)))
        } else {
            emit_slice(out, len, rel, Ghost(out0), Ghost(base@))
        }
    }
}

/// Resolve `rel` relative to `base`, writing the normalised absolute path into
/// `out`, as far as there is room.  Returns the number of bytes written.
pub fn resolve_path(base: &[u8], rel: &[u8], out: &mut [u8]) -> (r: usize)
    ensures
        filled(old(out)@, final(out)@, r as int, resolved(base@, rel@)),
{
    let mut tmp: [u8; MAX_JOINED] = [0u8; MAX_JOINED];
    let ghost tmp0 = tmp@;
    let len: usize = put_relative(base, rel, &mut tmp);
    proof {
        lemma_filled_cut(tmp0, tmp@, len as int, relative_to(base@, rel@));
    }
    normalize_path(&tmp[0..len], out)
}

/// `dir` and `name` with one `/` between them.
pub open spec fn join(dir: Seq<u8>, name: Seq<u8>) -> Seq<u8> {
    if dir.len() > 0 && dir.last() == SLASH {
        dir + name
    } else {
        dir.push(SLASH) + name
    }
}

/// Join `dir` and `name` with a `/` separator into `out`, as far as there is
/// room.  Returns the number of bytes written.
pub fn join_path(dir: &[u8], name: &[u8], out: &mut [u8]) -> (r: usize)
    ensures
        filled(old(out)@, final(out)@, r as int, join(dir@, name@)),
{
    let ghost out0 = out@;
    proof {
        lemma_filled_empty(out0);
    }
    let j: usize = emit_slice(out, 0, dir, Ghost(out0), Ghost(Seq::empty()));
    assert(Seq::<u8>::empty() + dir@ =~= dir@);
    if dir.len() == 0 || dir[dir.len() - 1] != SLASH {
        let j: usize = emit(out, j, SLASH, Ghost(out0), Ghost(dir@));
        emit_slice(out, j, name, Ghost(out0), Ghost(dir@.push(SLASH)))
    } else {
        emit_slice(out, j, name, Ghost(out0), Ghost(dir@))
    }
}

// The search path --------------------------------------------------------------

/// The non-empty parts of `s` between colons, in order.
pub open spec fn colon_parts(s: Seq<u8>) -> Seq<Seq<u8>>
    decreases s.len(),
{
    if s.len() == 0 {
        Seq::empty()
    } else {
        let k = first_index(s, COLON) as int;
        let rest = if k < s.len() {
            colon_parts(s.skip(k + 1))
        } else {
            Seq::empty()
        };
        if k == 0 {
            rest
        } else {
            seq![s.take(k)] + rest
        }
    }
}

/// Goes over the colon-separated parts of a search path, skipping empty ones.
/// Its view is the parts still to come.
pub struct SplitColon<'a> {
    data: &'a [u8],
    pos: usize,
}

impl<'a> View for SplitColon<'a> {
    type V = Seq<Seq<u8>>;

    closed spec fn view(&self) -> Seq<Seq<u8>> {
        colon_parts(self.data@.skip(self.pos as int))
    }
}

/// Iterate over the colon-separated parts of `s`.
pub fn split_colon(s: &[u8]) -> (r: SplitColon<'_>)
    ensures
        r.wf(),
        r@ == colon_parts(s@),
{
    assert(s@.skip(0) =~= s@);
    SplitColon { data: s, pos: 0 }
}

impl<'a> SplitColon<'a> {
    pub closed spec fn wf(&self) -> bool {
        self.pos <= self.data@.len()
    }

    /// The next part, or `None` when there are no more.
    pub fn next(&mut self) -> (r: Option<&'a [u8]>)
        requires
            old(self).wf(),
        ensures
            final(self).wf(),
            old(self)@.len() == 0 ==> r is None && final(self)@ == old(self)@,
            old(self)@.len() > 0 ==> r is Some && r->0@ == old(self)@[0] && final(self)@ == old(
                self,
            )@.skip(1),
    {
        while self.pos < self.data.len()
            invariant
                self.wf(),
                self@ == old(self)@,
            decreases self.data@.len() - self.pos,
        {
            let start: usize = self.pos;
            let end: usize = find_byte(self.data, start, COLON);
            let seg: &'a [u8] = &self.data[start..end];
            let ghost rest = self.data@.skip(start as int);
            proof {
                lemma_first_index(rest, COLON);
                assert(seg@ =~= rest.take(end - start));
                if end < self.data@.len() {
                    assert(rest.skip(end - start + 1) =~= self.data@.skip(end + 1));
                } else {
                    assert(self.data@.skip(end as int) =~= Seq::<u8>::empty());
                }
            }
            if end < self.data.len() {
                self.pos = end + 1;
            } else {
                self.pos = end;
            }
            if seg.len() > 0 {
                assert(self@ =~= old(self)@.skip(1));
                return Some(seg);
            }
        }
        assert(self@ =~= Seq::<Seq<u8>>::empty());
        None
    }
}

// Laws -------------------------------------------------------------------------

/// A component that normalisation keeps as it is.
pub open spec fn plain_component(c: Seq<u8>) -> bool {
    &&& 0 < c.len() <= MAX_COMPONENT
    &&& !c.contains(SLASH)
    &&& c != seq![DOT]
    &&& c != seq![DOT, DOT]
}

/// Components such as a normalised path has.
pub open spec fn plain_components(stack: Seq<Seq<u8>>) -> bool {
    &&& stack.len() <= MAX_DEPTH
    &&& forall|i: int| 0 <= i < stack.len() ==> plain_component(#[trigger] stack[i])
}

proof fn lemma_enter_plain(stack: Seq<Seq<u8>>, seg: Seq<u8>)
    requires
        plain_components(stack),
        !seg.contains(SLASH),
    ensures
        plain_components(enter(stack, seg)),
{
    let c = cut(seg, MAX_COMPONENT as int);
    if seg.len() > 0 && seg != seq![DOT] && seg != seq![DOT, DOT] {
        if c.contains(SLASH) {
            let k = choose|k: int| 0 <= k < c.len() && c[k] == SLASH;
            assert(seg[k] == SLASH);
        }
        assert(plain_component(c));
    }
}

proof fn lemma_walk_plain(stack: Seq<Seq<u8>>, path: Seq<u8>)
    requires
        plain_components(stack),
    ensures
        plain_components(walk(stack, path)),
    decreases path.len(),
{
    let k = first_index(path, SLASH) as int;
    lemma_first_index(path, SLASH);
    if k >= path.len() {
        lemma_enter_plain(stack, path);
    } else {
        assert(!path.take(k).contains(SLASH)) by {
            assert forall|i: int| 0 <= i < k implies path.take(k)[i] != SLASH by {
                assert(path[i] != SLASH);
            }
        }
        lemma_enter_plain(stack, path.take(k));
        lemma_walk_plain(enter(stack, path.take(k)), path.skip(k + 1));
    }
}

proof fn lemma_walk_append(stack: Seq<Seq<u8>>, a: Seq<u8>, b: Seq<u8>)
    ensures
        walk(stack, a.push(SLASH) + b) == walk(walk(stack, a), b),
    decreases a.len(),
{
    let k = first_index(a, SLASH) as int;
    let whole = a.push(SLASH) + b;
    lemma_first_index(a, SLASH);
    assert forall|i: int| 0 <= i < k implies whole[i] != SLASH by {
        assert(whole[i] == a[i]);
    }
    lemma_first_index_is(whole, SLASH, k);
    assert(whole.take(k) =~= a.take(k));
    if k < a.len() {
        assert(whole.skip(k + 1) =~= a.skip(k + 1).push(SLASH) + b);
        lemma_walk_append(enter(stack, a.take(k)), a.skip(k + 1), b);
    } else {
        assert(whole.skip(k + 1) =~= b);
        assert(a.take(k) =~= a);
    }
}

proof fn lemma_walk_component(stack: Seq<Seq<u8>>, c: Seq<u8>)
    requires
        plain_component(c),
        stack.len() < MAX_DEPTH,
    ensures
        walk(stack, c) == stack.push(c),
{
    lemma_first_index(c, SLASH);
}

proof fn lemma_walk_joined(start: Seq<Seq<u8>>, stack: Seq<Seq<u8>>)
    requires
        plain_components(stack),
        start.len() + stack.len() <= MAX_DEPTH,
    ensures
        walk(start, joined(stack)) == start + stack,
    decreases stack.len(),
{
    if stack.len() == 0 {
        lemma_first_index(joined(stack), SLASH);
        assert(start + stack =~= start);
    } else if stack.len() == 1 {
        lemma_walk_component(start, stack[0]);
        assert(start + stack =~= start.push(stack[0]));
    } else {
        let front = stack.drop_last();
        assert forall|i: int| 0 <= i < front.len() implies plain_component(#[trigger] front[i]) by {
            assert(front[i] == stack[i]);
        }
        lemma_walk_joined(start, front);
        lemma_walk_append(start, joined(front), stack.last());
        assert(joined(stack) =~= joined(front).push(SLASH) + stack.last());
        lemma_walk_component(start + front, stack.last());
        assert((start + front).push(stack.last()) =~= start + stack);
    }
}

proof fn lemma_walk_rendered(stack: Seq<Seq<u8>>)
    requires
        plain_components(stack),
    ensures
        walk(Seq::empty(), render(stack)) == stack,
{
    let none = Seq::<Seq<u8>>::empty();
    lemma_walk_append(none, Seq::empty(), joined(stack));
    assert(render(stack) =~= Seq::<u8>::empty().push(SLASH) + joined(stack));
    lemma_first_index(Seq::<u8>::empty(), SLASH);
    lemma_walk_joined(none, stack);
    assert(none + stack =~= stack);
}

/// A normalised path is absolute, and is made of components that are not
/// empty, not `.` and not `..`.
pub proof fn law_normalized_form(path: Seq<u8>)
    ensures
        normalized(path)[0] == SLASH,
        normalized(path) == render(walk(Seq::empty(), path)),
        plain_components(walk(Seq::empty(), path)),
{
    lemma_walk_plain(Seq::empty(), path);
}

/// Normalising a normalised path changes nothing.
pub proof fn law_normalize_idempotent(path: Seq<u8>)
    ensures
        normalized(normalized(path)) == normalized(path),
{
    lemma_walk_plain(Seq::empty(), path);
    lemma_walk_rendered(walk(Seq::empty(), path));
}

/// An absolute path is resolved without regard to the directory it is seen
/// from.
pub proof fn law_resolve_absolute(base: Seq<u8>, other: Seq<u8>, rel: Seq<u8>)
    requires
        rel.len() > 0,
        rel[0] == SLASH,
    ensures
        resolved(base, rel) == resolved(other, rel),
        resolved(base, rel) == normalized(cut(rel, MAX_JOINED as int)),
{
}

/// A relative path that fits is followed segment by segment from the
/// directory it is seen from.
pub proof fn law_resolve_relative(stack: Seq<Seq<u8>>, rel: Seq<u8>)
    requires
        plain_components(stack),
        rel.len() > 0 ==> rel[0] != SLASH,
        render(stack).len() + 1 + rel.len() <= MAX_JOINED,
    ensures
        resolved(render(stack), rel) == render(walk(stack, rel)),
{
    let base = render(stack);
    let none = Seq::<Seq<u8>>::empty();
    lemma_walk_rendered(stack);
    if base.last() != SLASH {
        lemma_walk_append(none, base, rel);
    } else {
        lemma_joined_end(stack);
        assert(stack =~= none);
        lemma_walk_append(none, Seq::empty(), rel);
        lemma_first_index(Seq::<u8>::empty(), SLASH);
        assert(base + rel =~= Seq::<u8>::empty().push(SLASH) + rel);
    }
}

proof fn lemma_joined_end(stack: Seq<Seq<u8>>)
    requires
        plain_components(stack),
    ensures
        render(stack).last() == SLASH ==> stack.len() == 0,
{
    if stack.len() > 0 {
        let c = stack.last();
        assert(plain_component(c));
        assert(render(stack).last() == c.last());
        assert(c.contains(c.last()));
    }
}

/// Entering a directory and leaving it again by `..` leads back.
pub proof fn law_dot_dot_undoes(stack: Seq<Seq<u8>>, name: Seq<u8>)
    requires
        plain_components(stack),
        stack.len() < MAX_DEPTH,
        plain_component(name),
        render(stack).len() + 1 + name.len() <= MAX_JOINED - 3,
    ensures
        resolved(render(stack), name) == render(stack.push(name)),
        resolved(render(stack.push(name)), seq![DOT, DOT]) == render(stack),
{
    lemma_walk_component(stack, name);
    lemma_component_start(name);
    law_resolve_relative(stack, name);
    let deeper = stack.push(name);
    assert(deeper.drop_last() =~= stack);
    assert(plain_components(deeper));
    lemma_first_index_is(seq![DOT, DOT], SLASH, 2);
    assert(walk(deeper, seq![DOT, DOT]) == stack);
    law_resolve_relative(deeper, seq![DOT, DOT]);
}

proof fn lemma_component_start(name: Seq<u8>)
    requires
        plain_component(name),
    ensures
        name[0] != SLASH,
{
    assert(name.contains(name[0]));
}

/// `.` leads nowhere.
pub proof fn law_dot_stays(stack: Seq<Seq<u8>>)
    requires
        plain_components(stack),
        render(stack).len() + 2 <= MAX_JOINED,
    ensures
        resolved(render(stack), seq![DOT]) == render(stack),
{
    lemma_first_index_is(seq![DOT], SLASH, 1);
    law_resolve_relative(stack, seq![DOT]);
}

/// How components make up a path: none is `/`, and each further one comes with
/// a `/` before it.
pub proof fn law_render(stack: Seq<Seq<u8>>, c: Seq<u8>)
    ensures
        render(Seq::empty()) == seq![0x2fu8],
        render(seq![c]) == seq![0x2fu8] + c,
        stack.len() > 0 ==> render(stack.push(c)) == render(stack) + seq![0x2fu8] + c,
{
    assert(render(Seq::empty()) =~= seq![0x2fu8]);
    if stack.len() > 0 {
        assert(stack.push(c).drop_last() =~= stack);
        assert(render(stack.push(c)) =~= render(stack) + seq![0x2fu8] + c);
    }
}

/// A path of plain components is normal already.
pub proof fn law_plain_path_stays(stack: Seq<Seq<u8>>)
    requires
        plain_components(stack),
    ensures
        normalized(render(stack)) == render(stack),
{
    lemma_walk_rendered(stack);
}

/// A path is followed segment by segment: what stands before a `/` first, then
/// what stands behind it.
pub proof fn law_walk(stack: Seq<Seq<u8>>, a: Seq<u8>, b: Seq<u8>)
    ensures
        walk(stack, a + seq![0x2fu8] + b) == walk(walk(stack, a), b),
{
    lemma_walk_append(stack, a, b);
    assert(a.push(SLASH) + b =~= a + seq![0x2fu8] + b);
}

/// What a single segment does: nothing and `.` stay, `..` leaves the last
/// component, if there is one, and a name enters a component, which is cut to
/// 64 bytes; a 33rd component is not entered.
pub proof fn law_segment(stack: Seq<Seq<u8>>, name: Seq<u8>)
    ensures
        walk(stack, Seq::empty()) == stack,
        walk(stack, seq![0x2eu8]) == stack,
        stack.len() > 0 ==> walk(stack, seq![0x2eu8, 0x2e]) == stack.take(stack.len() - 1),
        stack.len() == 0 ==> walk(stack, seq![0x2eu8, 0x2e]) == stack,
        name.len() > 0 && !name.contains(SLASH) && name != seq![0x2eu8] && name != seq![
            0x2eu8,
            0x2e,
        ] ==> {
            &&& stack.len() < 32 && name.len() <= 64 ==> walk(stack, name) == stack.push(name)
            &&& stack.len() < 32 && name.len() > 64 ==> walk(stack, name) == stack.push(
                name.take(64),
            )
            &&& stack.len() >= 32 ==> walk(stack, name) == stack
        },
{
    lemma_first_index(Seq::<u8>::empty(), SLASH);
    lemma_first_index_is(seq![0x2eu8], SLASH, 1);
    lemma_first_index_is(seq![0x2eu8, 0x2e], SLASH, 2);
    lemma_first_index(name, SLASH);
    if stack.len() > 0 {
        assert(stack.drop_last() =~= stack.take(stack.len() - 1));
    }
}

/// A relative path is seen from the base with one `/` between them; an absolute
/// one stands alone.
pub proof fn law_relative_to(base: Seq<u8>, rel: Seq<u8>)
    ensures
        rel.len() > 0 && rel[0] == 0x2f ==> relative_to(base, rel) == rel,
        !(rel.len() > 0 && rel[0] == 0x2f) && base.len() > 0 && base[base.len() - 1] != 0x2f
            ==> relative_to(base, rel) == base + seq![0x2fu8] + rel,
        !(rel.len() > 0 && rel[0] == 0x2f) && base.len() > 0 && base[base.len() - 1] == 0x2f
            ==> relative_to(base, rel) == base + rel,
        relative_to(base, rel).len() <= 512 ==> resolved(base, rel) == normalized(
            relative_to(base, rel),
        ),
        relative_to(base, rel).len() > 512 ==> resolved(base, rel) == normalized(
            relative_to(base, rel).take(512),
        ),
{
    assert(base.push(SLASH) + rel =~= base + seq![0x2fu8] + rel);
}

/// A directory and a name are joined by one `/`.
pub proof fn law_join(dir: Seq<u8>, name: Seq<u8>)
    ensures
        dir.len() > 0 && dir[dir.len() - 1] == 0x2f ==> join(dir, name) == dir + name,
        !(dir.len() > 0 && dir[dir.len() - 1] == 0x2f) ==> join(dir, name) == dir + seq![0x2fu8]
            + name,
{
    assert(dir.push(SLASH) + name =~= dir + seq![0x2fu8] + name);
}

/// The directories `dirs` with a colon between each two.
pub open spec fn coloned(dirs: Seq<Seq<u8>>) -> Seq<u8>
    decreases dirs.len(),
{
    if dirs.len() == 0 {
        Seq::empty()
    } else if dirs.len() == 1 {
        dirs[0]
    } else {
        dirs[0] + seq![0x3au8] + coloned(dirs.skip(1))
    }
}

/// Splitting a search path at its colons gives the parts that it was made of.
pub proof fn law_colon_parts(dirs: Seq<Seq<u8>>)
    requires
        forall|i: int|
            0 <= i < dirs.len() ==> (#[trigger] dirs[i]).len() > 0 && !dirs[i].contains(COLON),
    ensures
        colon_parts(coloned(dirs)) == dirs,
    decreases dirs.len(),
{
    if dirs.len() == 0 {
        assert(colon_parts(coloned(dirs)) =~= dirs);
    } else {
        let d = dirs[0];
        let s = coloned(dirs);
        let n = d.len() as int;
        assert(d.len() > 0 && !d.contains(COLON));
        assert forall|k: int| 0 <= k < n implies s[k] != COLON by {
            assert(s[k] == d[k]);
            assert(d.contains(d[k]));
        }
        lemma_first_index_is(s, COLON, n);
        assert(s.take(n) =~= d);
        if dirs.len() > 1 {
            let rest = dirs.skip(1);
            assert forall|i: int| 0 <= i < rest.len() implies (#[trigger] rest[i]).len() > 0
                && !rest[i].contains(COLON) by {
                assert(rest[i] == dirs[i + 1]);
            }
            law_colon_parts(rest);
            assert(s.skip(n + 1) =~= coloned(rest));
            assert(seq![d] + rest =~= dirs);
        } else {
            assert(seq![d] + Seq::<Seq<u8>>::empty() =~= dirs);
        }
    }
}

/// Empty parts of a search path do not count.
pub proof fn law_empty_part(s: Seq<u8>)
    ensures
        colon_parts(seq![0x3au8] + s) == colon_parts(s),
        colon_parts(Seq::empty()).len() == 0,
{
    assert((seq![0x3au8] + s).skip(1) =~= s);
}

/// What stands before a colon is a part, and the parts of what stands behind it
/// follow.
pub proof fn law_colon_split(d: Seq<u8>, rest: Seq<u8>)
    requires
        d.len() > 0,
        !d.contains(COLON),
    ensures
        colon_parts(d) == seq![d],
        colon_parts(d + seq![0x3au8] + rest) == seq![d] + colon_parts(rest),
{
    let s = d + seq![0x3au8] + rest;
    let n = d.len() as int;
    assert forall|k: int| 0 <= k < n implies d[k] != COLON by {
        assert(d.contains(d[k]));
    }
    lemma_first_index_is(d, COLON, n);
    assert forall|k: int| 0 <= k < n implies s[k] != COLON by {
        assert(s[k] == d[k]);
    }
    lemma_first_index_is(s, COLON, n);
    assert(d.take(n) =~= d);
    assert(s.take(n) =~= d);
    assert(s.skip(n + 1) =~= rest);
    assert(seq![d] + Seq::<Seq<u8>>::empty() =~= seq![d]);
}

} // verus!
