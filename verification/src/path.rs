//! File-system paths as byte strings, with `/` as the separator.
//!
//! A path is split into components as `std::path::Path` does on Unix: a
//! leading `/` is the root, empty segments and `.` segments are dropped
//! except a `.` that begins a relative path, and `..` is kept as it is.
//! In a component list the root stands as the segment `/` and a leading
//! current-directory component as the segment `.`; no other component can
//! be either of these.

use vstd::prelude::*;

verus! {

/// The separator byte `/`.
pub open spec fn sep() -> u8 {
    47u8
}

/// The byte `.`.
pub open spec fn dot() -> u8 {
    46u8
}

/// The views of a vector of byte vectors.
pub open spec fn views(v: Seq<Vec<u8>>) -> Seq<Seq<u8>> {
    v.map_values(|x: Vec<u8>| x@)
}

/// `dir` with `comp` adjoined, as `PathBuf::push` does on Unix: an absolute
/// `comp` replaces `dir`; otherwise a separator is put between them unless
/// `dir` is empty or already ends with one.
pub open spec fn spec_join(dir: Seq<u8>, comp: Seq<u8>) -> Seq<u8> {
    if comp.len() > 0 && comp[0] == sep() {
        comp
    } else if dir.len() == 0 || dir.last() == sep() {
        dir + comp
    } else {
        dir + seq![sep()] + comp
    }
}

/// The segments of `p` between separators, empty ones included.
pub open spec fn split_path(p: Seq<u8>) -> Seq<Seq<u8>>
    decreases p.len(),
{
    if p.len() == 0 {
        seq![Seq::<u8>::empty()]
    } else {
        let s = split_path(p.drop_last());
        if p.last() == sep() {
            s.push(Seq::<u8>::empty())
        } else {
            s.update(s.len() - 1, s.last().push(p.last()))
        }
    }
}

/// Holds of the segments that stand as a component: neither empty nor `.`.
pub open spec fn is_kept_segment() -> spec_fn(Seq<u8>) -> bool {
    |s: Seq<u8>| s.len() > 0 && s != seq![dot()]
}

/// The path starts at the root.
pub open spec fn has_root(p: Seq<u8>) -> bool {
    p.len() > 0 && p[0] == sep()
}

/// The relative path starts with a `.` component.
pub open spec fn has_cur_dir(p: Seq<u8>) -> bool {
    !has_root(p) && p.len() > 0 && p[0] == dot() && (p.len() == 1 || p[1] == sep())
}

/// The components of `p` that come before its segments.
pub open spec fn leading_components(p: Seq<u8>) -> Seq<Seq<u8>> {
    if has_root(p) {
        seq![seq![sep()]]
    } else if has_cur_dir(p) {
        seq![seq![dot()]]
    } else {
        Seq::empty()
    }
}

/// The components of `p`.
pub open spec fn path_components(p: Seq<u8>) -> Seq<Seq<u8>> {
    leading_components(p) + split_path(p).filter(is_kept_segment())
}

/// Returns the one-byte vector holding `b`.
fn single_byte(b: u8) -> (res: Vec<u8>)
    ensures
        res@ == seq![b],
{
    let mut res: Vec<u8> = Vec::new();
    res.push(b);
    res
}

/// Returns `dir` with `comp` adjoined.
pub fn join_path(dir: &[u8], comp: &[u8]) -> (res: Vec<u8>)
    ensures
        res@ == spec_join(dir@, comp@),
{
    if comp.len() > 0 && comp[0] == 47u8 {
        return vstd::slice::slice_to_vec(comp);
    }
    let mut res = vstd::slice::slice_to_vec(dir);
    if dir.len() > 0 && dir[dir.len() - 1] != 47u8 {
        res.push(47u8);
    }
    let mut i: usize = 0;
    let ghost start = res@;
    while i < comp.len()
        invariant
            i <= comp@.len(),
            res@ == start + comp@.take(i as int),
        decreases comp.len() - i,
    {
        res.push(comp[i]);
        assert(comp@.take(i + 1) =~= comp@.take(i as int).push(comp@[i as int]));
        i = i + 1;
    }
    assert(comp@.take(comp@.len() as int) =~= comp@);
    res
}

/// Returns the components of `p`.
pub fn path_components_of(p: &[u8]) -> (res: Vec<Vec<u8>>)
    ensures
        views(res@) == path_components(p@),
{
    let mut res: Vec<Vec<u8>> = Vec::new();
    if p.len() > 0 && p[0] == 47u8 {
        res.push(single_byte(47u8));
    } else if p.len() > 0 && p[0] == 46u8 && (p.len() == 1 || p[1] == 47u8) {
        res.push(single_byte(46u8));
    }
    proof {
        assert(views(res@) =~= leading_components(p@));
    }
    let ghost lead = views(res@);
    let ghost mut raw: Seq<Seq<u8>> = Seq::empty();
    let mut cur: Vec<u8> = Vec::new();
    let mut j: usize = 0;
    proof {
        assert(p@.take(0) =~= Seq::<u8>::empty());
        assert(raw.push(cur@) =~= seq![Seq::<u8>::empty()]);
        reveal(Seq::filter);
        assert(raw.filter(is_kept_segment()) =~= Seq::<Seq<u8>>::empty());
        assert(views(res@) =~= lead + raw.filter(is_kept_segment()));
    }
    while j < p.len()
        invariant
            j <= p@.len(),
            split_path(p@.take(j as int)) == raw.push(cur@),
            views(res@) == lead + raw.filter(is_kept_segment()),
        decreases p.len() - j,
    {
        let b = p[j];
        assert(p@.take(j + 1).drop_last() =~= p@.take(j as int));
        if b == 47u8 {
            proof {
                raw.lemma_filter_push(cur@, is_kept_segment());
            }
            let ghost old_raw = raw;
            let ghost old_res = views(res@);
            let keep = cur.len() > 0 && !(cur.len() == 1 && cur[0] == 46u8);
            let mut seg: Vec<u8> = Vec::new();
            std::mem::swap(&mut seg, &mut cur);
            proof {
                assert(keep == is_kept_segment()(seg@)) by {
                    if seg@ == seq![dot()] {
                        assert(seg@.len() == 1 && seg@[0] == dot());
                    }
                    if seg@.len() == 1 && seg@[0] == dot() {
                        assert(seg@ =~= seq![dot()]);
                    }
                }
                raw = raw.push(seg@);
            }
            if keep {
                res.push(seg);
                assert(views(res@) =~= old_res.push(seg@));
            }
            assert(views(res@) =~= lead + raw.filter(is_kept_segment()));
            assert(raw.push(cur@) =~= split_path(p@.take(j + 1)));
        } else {
            cur.push(b);
            assert(raw.push(cur@) =~= split_path(p@.take(j + 1)));
        }
        j = j + 1;
    }
    proof {
        assert(p@.take(p@.len() as int) =~= p@);
        raw.lemma_filter_push(cur@, is_kept_segment());
    }
    let keep = cur.len() > 0 && !(cur.len() == 1 && cur[0] == 46u8);
    proof {
        if cur@ == seq![dot()] {
            assert(cur@.len() == 1 && cur@[0] == dot());
        }
        if cur@.len() == 1 && cur@[0] == dot() {
            assert(cur@ =~= seq![dot()]);
        }
    }
    let ghost before = views(res@);
    if keep {
        res.push(cur);
        assert(views(res@) =~= before.push(cur@));
    }
    assert(views(res@) =~= path_components(p@));
    res
}

/// The components in `c` joined by separators, a leading root component
/// standing as the leading `/`.
pub open spec fn spec_serialize(c: Seq<Seq<u8>>) -> Seq<u8> {
    if c.len() > 0 && c[0] == seq![sep()] {
        seq![sep()] + join_segments(c.drop_first())
    } else {
        join_segments(c)
    }
}

/// The segments in `s` joined by separators.
pub open spec fn join_segments(s: Seq<Seq<u8>>) -> Seq<u8>
    decreases s.len(),
{
    if s.len() == 0 {
        Seq::empty()
    } else if s.len() == 1 {
        s[0]
    } else {
        join_segments(s.drop_last()) + seq![sep()] + s.last()
    }
}

/// `a` is a prefix of `b`.
pub open spec fn is_prefix(a: Seq<Seq<u8>>, b: Seq<Seq<u8>>) -> bool {
    a.len() <= b.len() && b.take(a.len() as int) == a
}

/// How many times the path with components `c` has a parent: once per
/// component, but a root component has no parent.
pub open spec fn parent_steps(c: Seq<Seq<u8>>) -> int {
    if c.len() > 0 && c[0] == seq![sep()] {
        c.len() - 1
    } else {
        c.len() as int
    }
}

/// The smallest `i`, from `start` on, such that the `i`-th ancestor of the
/// path with components `from` (its components without the last `i`) is a
/// prefix of `to`.
pub open spec fn first_common_ancestor(from: Seq<Seq<u8>>, to: Seq<Seq<u8>>, start: int) -> Option<int>
    decreases parent_steps(from) + 1 - start,
{
    if start < 0 || start > parent_steps(from) {
        None
    } else if is_prefix(from.take(from.len() - start), to) {
        Some(start)
    } else {
        first_common_ancestor(from, to, start + 1)
    }
}

/// `i` parent-directory components joined by separators.
pub open spec fn parent_dirs(i: nat) -> Seq<u8>
    decreases i,
{
    if i == 0 {
        Seq::empty()
    } else if i == 1 {
        seq![dot(), dot()]
    } else {
        parent_dirs((i - 1) as nat) + seq![sep(), dot(), dot()]
    }
}

/// The path `to` relative to the directory with components `from`: up as
/// many levels as needed to reach an ancestor of `from` that `to` lies in,
/// then down the rest of `to`; `.` when `to` is that directory itself; `to`
/// unchanged when no ancestor of `from` holds it.
pub open spec fn spec_relative_path(from: Seq<Seq<u8>>, to: Seq<u8>) -> Seq<u8> {
    let to_c = path_components(to);
    match first_common_ancestor(from, to_c, 0) {
        None => to,
        Some(i) => {
            let rest = to_c.skip(from.len() - i);
            if i == 0 && rest.len() == 0 {
                seq![dot()]
            } else {
                spec_join(parent_dirs(i as nat), spec_serialize(rest))
            }
        },
    }
}

/// Appends the bytes of `b` to `out`.
pub fn append_bytes(out: &mut Vec<u8>, b: &[u8])
    ensures
        final(out)@ == old(out)@ + b@,
{
    let mut i: usize = 0;
    while i < b.len()
        invariant
            i <= b@.len(),
            out@ == old(out)@ + b@.take(i as int),
        decreases b.len() - i,
    {
        out.push(b[i]);
        assert(b@.take(i + 1) =~= b@.take(i as int).push(b@[i as int]));
        i = i + 1;
    }
    assert(b@.take(b@.len() as int) =~= b@);
}

/// Two byte strings are equal.
pub fn bytes_equal(a: &[u8], b: &[u8]) -> (res: bool)
    ensures
        res == (a@ == b@),
{
    if a.len() != b.len() {
        return false;
    }
    let mut i: usize = 0;
    while i < a.len()
        invariant
            a@.len() == b@.len(),
            i <= a@.len(),
            forall|j: int| 0 <= j < i ==> a@[j] == b@[j],
        decreases a.len() - i,
    {
        if a[i] != b[i] {
            assert(a@[i as int] != b@[i as int]);
            return false;
        }
        i = i + 1;
    }
    assert(a@ =~= b@);
    true
}

/// The first `n` components of `a` are a prefix of `b`.
fn components_prefix(a: &Vec<Vec<u8>>, n: usize, b: &Vec<Vec<u8>>) -> (res: bool)
    requires
        n <= a@.len(),
    ensures
        res == is_prefix(views(a@).take(n as int), views(b@)),
{
    if n > b.len() {
        return false;
    }
    let mut i: usize = 0;
    while i < n
        invariant
            n <= a@.len(),
            n <= b@.len(),
            i <= n,
            forall|j: int| 0 <= j < i ==> a@[j]@ == b@[j]@,
        decreases n - i,
    {
        if !bytes_equal(a[i].as_slice(), b[i].as_slice()) {
            assert(views(b@).take(n as int)[i as int] != views(a@).take(n as int)[i as int]);
            return false;
        }
        i = i + 1;
    }
    assert(views(b@).take(n as int) =~= views(a@).take(n as int));
    true
}

/// Two paths have the same components, as `Path`'s `==` compares them.
pub fn same_path(a: &[u8], b: &[u8]) -> (res: bool)
    ensures
        res == (path_components(a@) == path_components(b@)),
{
    let ca = path_components_of(a);
    let cb = path_components_of(b);
    let n = ca.len();
    if n != cb.len() {
        return false;
    }
    assert(views(ca@).take(n as int) =~= views(ca@));
    assert(views(cb@).take(n as int) =~= views(cb@));
    components_prefix(&ca, n, &cb)
}

/// Returns the joined segments `c[start..]`.
fn join_segments_from(c: &Vec<Vec<u8>>, start: usize) -> (res: Vec<u8>)
    requires
        start <= c@.len(),
    ensures
        res@ == join_segments(views(c@).skip(start as int)),
{
    let mut out: Vec<u8> = Vec::new();
    let mut k: usize = start;
    assert(views(c@).subrange(start as int, start as int) =~= Seq::<Seq<u8>>::empty());
    while k < c.len()
        invariant
            start <= k <= c@.len(),
            out@ == join_segments(views(c@).subrange(start as int, k as int)),
        decreases c.len() - k,
    {
        let ghost before = views(c@).subrange(start as int, k as int);
        let ghost after = views(c@).subrange(start as int, k + 1);
        assert(after.drop_last() =~= before);
        if k > start {
            out.push(47u8);
        }
        append_bytes(&mut out, c[k].as_slice());
        proof {
            if k == start {
                assert(after =~= seq![c@[k as int]@]);
            }
        }
        assert(out@ =~= join_segments(after));
        k = k + 1;
    }
    assert(views(c@).subrange(start as int, c@.len() as int) =~= views(c@).skip(start as int));
    out
}

/// Returns the path with the components `c[start..]`.
fn serialize_from(c: &Vec<Vec<u8>>, start: usize) -> (res: Vec<u8>)
    requires
        start <= c@.len(),
    ensures
        res@ == spec_serialize(views(c@).skip(start as int)),
{
    let ghost rest = views(c@).skip(start as int);
    if start < c.len() && c[start].len() == 1 && c[start][0] == 47u8 {
        assert(rest[0] =~= seq![sep()]);
        let mut out = single_byte(47u8);
        let tail = join_segments_from(c, start + 1);
        append_bytes(&mut out, tail.as_slice());
        assert(views(c@).skip(start + 1) =~= rest.drop_first());
        out
    } else {
        proof {
            if rest.len() > 0 && rest[0] == seq![sep()] {
                assert(rest[0].len() == 1 && rest[0][0] == sep());
            }
        }
        join_segments_from(c, start)
    }
}

/// Returns `i` parent-directory components joined by separators.
fn parent_dirs_of(i: usize) -> (res: Vec<u8>)
    ensures
        res@ == parent_dirs(i as nat),
{
    let mut out: Vec<u8> = Vec::new();
    let mut k: usize = 0;
    while k < i
        invariant
            k <= i,
            out@ == parent_dirs(k as nat),
        decreases i - k,
    {
        if k > 0 {
            out.push(47u8);
        }
        out.push(46u8);
        out.push(46u8);
        assert(out@ =~= parent_dirs((k + 1) as nat));
        k = k + 1;
    }
    out
}

/// Returns `to` relative to the directory whose components are `from`.
pub fn relative_path(from: &Vec<Vec<u8>>, to: &[u8]) -> (res: Vec<u8>)
    ensures
        res@ == spec_relative_path(views(from@), to@),
{
    let to_c = path_components_of(to);
    let n = from.len();
    let steps: usize = if n > 0 && from[0].len() == 1 && from[0][0] == 47u8 {
        n - 1
    } else {
        n
    };
    proof {
        let f = views(from@);
        if n > 0 && f[0] == seq![sep()] {
            assert(f[0].len() == 1 && f[0][0] == sep());
        }
        if n > 0 && from@[0]@.len() == 1 && from@[0]@[0] == sep() {
            assert(f[0] =~= seq![sep()]);
        }
        assert(steps == parent_steps(f));
    }
    let mut i: usize = 0;
    loop
        invariant
            i <= steps,
            steps == parent_steps(views(from@)),
            steps <= n,
            n == from@.len(),
            views(to_c@) == path_components(to@),
            first_common_ancestor(views(from@), views(to_c@), 0)
                == first_common_ancestor(views(from@), views(to_c@), i as int),
        ensures
            first_common_ancestor(views(from@), views(to_c@), 0) is None,
        decreases steps - i,
    {
        assert(views(from@).take((n - i) as int) =~= views(from@).take(n - i));
        if components_prefix(from, n - i, &to_c) {
            let rest_len = to_c.len() - (n - i);
            if i == 0 && rest_len == 0 {
                return single_byte(46u8);
            }
            let dirs = parent_dirs_of(i);
            let rest = serialize_from(&to_c, n - i);
            return join_path(dirs.as_slice(), rest.as_slice());
        }
        if i == steps {
            assert(first_common_ancestor(views(from@), views(to_c@), steps + 1) is None);
            break;
        }
        i = i + 1;
    }
    vstd::slice::slice_to_vec(to)
}

/// A component of a normalized path after its root: not empty, without a
/// separator, and neither `.` nor `..`.
pub open spec fn is_normal_component(c: Seq<u8>) -> bool {
    c.len() > 0 && !c.contains(sep()) && c != seq![dot()] && c != seq![dot(), dot()]
}

/// The components of an absolute path without `.` or `..` components, such
/// as a canonicalized path has.
pub open spec fn is_canonical(c: Seq<Seq<u8>>) -> bool {
    &&& c.len() >= 1
    &&& c[0] == seq![sep()]
    &&& forall|k: int| 1 <= k < c.len() ==> is_normal_component(#[trigger] c[k])
}

/// The directory reached from the directory with components `stack` by
/// following the component `c`: the root starts over, `.` stays, `..` goes
/// to the parent (the root is its own parent), any other name goes down.
pub open spec fn resolve_step(stack: Seq<Seq<u8>>, c: Seq<u8>) -> Seq<Seq<u8>> {
    if c == seq![sep()] {
        seq![seq![sep()]]
    } else if c == seq![dot()] {
        stack
    } else if c == seq![dot(), dot()] {
        if stack.len() > 0 && stack.last() != seq![sep()] {
            stack.drop_last()
        } else {
            stack
        }
    } else {
        stack.push(c)
    }
}

/// The components of the path reached by following `comps` from `base`,
/// resolving `.` and `..`.
pub open spec fn resolve(base: Seq<Seq<u8>>, comps: Seq<Seq<u8>>) -> Seq<Seq<u8>>
    decreases comps.len(),
{
    if comps.len() == 0 {
        base
    } else {
        resolve_step(resolve(base, comps.drop_last()), comps.last())
    }
}

/// `i` parent-directory components.
pub open spec fn parent_dir_components(i: nat) -> Seq<Seq<u8>> {
    Seq::new(i, |k: int| seq![dot(), dot()])
}

proof fn lemma_split_path_nonempty(p: Seq<u8>)
    ensures
        split_path(p).len() >= 1,
    decreases p.len(),
{
    if p.len() > 0 {
        lemma_split_path_nonempty(p.drop_last());
    }
}

proof fn lemma_split_append_sep(p: Seq<u8>)
    ensures
        split_path(p + seq![sep()]) == split_path(p).push(Seq::<u8>::empty()),
{
    assert((p + seq![sep()]).drop_last() =~= p);
}

proof fn lemma_split_append_plain(p: Seq<u8>, s: Seq<u8>)
    requires
        !s.contains(sep()),
    ensures
        split_path(p + s) == split_path(p).update(
            split_path(p).len() - 1,
            split_path(p).last() + s,
        ),
    decreases s.len(),
{
    lemma_split_path_nonempty(p);
    let sp = split_path(p);
    if s.len() == 0 {
        assert(p + s =~= p);
        assert(sp.last() + s =~= sp.last());
        assert(sp.update(sp.len() - 1, sp.last() + s) =~= sp);
    } else {
        let s1 = s.drop_last();
        assert(!s1.contains(sep())) by {
            if s1.contains(sep()) {
                let j = choose|j: int| 0 <= j < s1.len() && s1[j] == sep();
                assert(s[j] == sep());
            }
        }
        lemma_split_append_plain(p, s1);
        assert((p + s).drop_last() =~= p + s1);
        assert((p + s).last() == s.last());
        assert(s.last() != sep()) by {
            if s.last() == sep() {
                assert(s[s.len() - 1] == sep());
            }
        }
        assert(sp.last() + s =~= (sp.last() + s1).push(s.last()));
        assert(split_path(p + s) =~= sp.update(sp.len() - 1, sp.last() + s));
    }
}

/// Joining segments that hold no separator, and splitting the result,
/// gives the segments back.
proof fn lemma_split_join(segs: Seq<Seq<u8>>)
    requires
        segs.len() >= 1,
        forall|k: int| 0 <= k < segs.len() ==> !(#[trigger] segs[k]).contains(sep()),
    ensures
        split_path(join_segments(segs)) == segs,
    decreases segs.len(),
{
    if segs.len() == 1 {
        lemma_split_append_plain(Seq::<u8>::empty(), segs[0]);
        assert(Seq::<u8>::empty() + segs[0] =~= segs[0]);
        assert(Seq::<u8>::empty() + segs[0] =~= segs[0]);
        assert(split_path(Seq::<u8>::empty()) =~= seq![Seq::<u8>::empty()]);
        assert(split_path(segs[0]) =~= segs);
    } else {
        let init = segs.drop_last();
        lemma_split_join(init);
        let j = join_segments(init);
        assert(segs.last() == segs[segs.len() - 1]);
        lemma_split_append_sep(j);
        lemma_split_append_plain(j + seq![sep()], segs.last());
        assert(join_segments(segs) == j + seq![sep()] + segs.last());
        assert(Seq::<u8>::empty() + segs.last() =~= segs.last());
        assert(split_path(join_segments(segs)) =~= segs);
    }
}

/// Joining two nonempty lists of segments is joining each and putting a
/// separator between.
proof fn lemma_join_segments_concat(a: Seq<Seq<u8>>, b: Seq<Seq<u8>>)
    requires
        a.len() >= 1,
        b.len() >= 1,
    ensures
        join_segments(a + b) == join_segments(a) + seq![sep()] + join_segments(b),
    decreases b.len(),
{
    assert((a + b).drop_last() =~= a + b.drop_last());
    assert((a + b).last() == b.last());
    if b.len() == 1 {
        assert(a + b.drop_last() =~= a);
        assert(join_segments(b) == b[0]);
    } else {
        lemma_join_segments_concat(a, b.drop_last());
        assert(join_segments(a + b) =~= join_segments(a) + seq![sep()] + join_segments(b));
    }
}

proof fn lemma_parent_dirs_join(i: nat)
    ensures
        parent_dirs(i) == join_segments(parent_dir_components(i)),
    decreases i,
{
    if i == 1 {
        assert(parent_dir_components(1)[0] == seq![dot(), dot()]);
    } else if i > 1 {
        lemma_parent_dirs_join((i - 1) as nat);
        assert(parent_dir_components(i).drop_last() =~= parent_dir_components((i - 1) as nat));
        assert(parent_dirs(i) =~= join_segments(parent_dir_components(i)));
    }
}

proof fn lemma_join_segments_first(segs: Seq<Seq<u8>>)
    requires
        segs.len() >= 1,
        segs[0].len() >= 1,
    ensures
        join_segments(segs).len() >= segs[0].len(),
        forall|j: int| 0 <= j < segs[0].len() ==> #[trigger] join_segments(segs)[j] == segs[0][j],
{
    if segs.len() > 1 {
        let a = seq![segs[0]];
        let b = segs.skip(1);
        assert(segs =~= a + b);
        lemma_join_segments_concat(a, b);
        assert(join_segments(a) == segs[0]);
    }
}

/// The segments that stand as components are all kept.
proof fn lemma_filter_all_kept(segs: Seq<Seq<u8>>)
    requires
        forall|k: int| 0 <= k < segs.len() ==> is_kept_segment()(#[trigger] segs[k]),
    ensures
        segs.filter(is_kept_segment()) == segs,
    decreases segs.len(),
{
    reveal(Seq::filter);
    if segs.len() > 0 {
        lemma_filter_all_kept(segs.drop_last());
        assert(segs.last() == segs[segs.len() - 1]);
        assert(segs.drop_last().push(segs.last()) =~= segs);
    }
}

/// A relative path written as segments, each a name or `..`, has those
/// segments as its components.
proof fn lemma_components_of_join(segs: Seq<Seq<u8>>)
    requires
        segs.len() >= 1,
        forall|k: int|
            0 <= k < segs.len() ==> (is_normal_component(#[trigger] segs[k]) || segs[k] == seq![
                dot(),
                dot(),
            ]),
    ensures
        path_components(join_segments(segs)) == segs,
        !has_root(join_segments(segs)),
        join_segments(segs).len() > 0,
{
    assert forall|k: int| 0 <= k < segs.len() implies !(#[trigger] segs[k]).contains(sep()) by {
        if segs[k] == seq![dot(), dot()] {
            if segs[k].contains(sep()) {
                let j = choose|j: int| 0 <= j < segs[k].len() && segs[k][j] == sep();
            }
        }
    }
    assert forall|k: int| 0 <= k < segs.len() implies is_kept_segment()(#[trigger] segs[k]) by {
        if segs[k] == seq![dot(), dot()] {
            assert(segs[k] != seq![dot()]) by {
                assert(segs[k].len() != seq![dot()].len());
            }
        }
    }
    lemma_split_join(segs);
    lemma_filter_all_kept(segs);
    let p = join_segments(segs);
    let s0 = segs[0];
    assert(s0.len() >= 1);
    lemma_join_segments_first(segs);
    assert(p[0] == s0[0]);
    assert(s0[0] != sep()) by {
        assert(!s0.contains(sep()));
        if s0[0] == sep() {
            assert(s0.contains(sep()));
        }
    }
    if has_cur_dir(p) {
        if s0.len() == 1 {
            assert(s0 =~= seq![dot()]);
        } else {
            assert(p[1] == s0[1]);
            assert(!s0.contains(sep()));
            assert(s0[1] != sep()) by {
                if s0[1] == sep() {
                    assert(s0.contains(sep()));
                }
            }
        }
    }
    assert(leading_components(p) =~= Seq::<Seq<u8>>::empty());
    assert(path_components(p) =~= segs);
}

/// Following `a` then `b` is following `a + b`.
proof fn lemma_resolve_concat(base: Seq<Seq<u8>>, a: Seq<Seq<u8>>, b: Seq<Seq<u8>>)
    ensures
        resolve(base, a + b) == resolve(resolve(base, a), b),
    decreases b.len(),
{
    if b.len() == 0 {
        assert(a + b =~= a);
    } else {
        lemma_resolve_concat(base, a, b.drop_last());
        assert((a + b).drop_last() =~= a + b.drop_last());
        assert((a + b).last() == b.last());
    }
}

/// Following names goes down into them.
proof fn lemma_resolve_names(base: Seq<Seq<u8>>, names: Seq<Seq<u8>>)
    requires
        forall|k: int| 0 <= k < names.len() ==> is_normal_component(#[trigger] names[k]),
    ensures
        resolve(base, names) == base + names,
    decreases names.len(),
{
    if names.len() == 0 {
        assert(base + names =~= base);
    } else {
        lemma_resolve_names(base, names.drop_last());
        let c = names.last();
        assert(c == names[names.len() - 1]);
        assert(c != seq![sep()]) by {
            if c == seq![sep()] {
                assert(c[0] == sep());
                assert(c.contains(sep()));
            }
        }
        assert(base + names =~= (base + names.drop_last()).push(c));
    }
}

/// Following `i` parent directories from a canonical path drops its last
/// `i` components.
proof fn lemma_resolve_parents(from: Seq<Seq<u8>>, i: nat)
    requires
        is_canonical(from),
        i < from.len(),
    ensures
        resolve(from, parent_dir_components(i)) == from.take(from.len() - i),
    decreases i,
{
    if i == 0 {
        assert(from.take(from.len() as int) =~= from);
    } else {
        lemma_resolve_parents(from, (i - 1) as nat);
        assert(parent_dir_components(i).drop_last() =~= parent_dir_components((i - 1) as nat));
        let stack = from.take(from.len() - i + 1);
        let last = from[from.len() - i];
        assert(stack.last() == last);
        assert(is_normal_component(last));
        assert(last != seq![sep()]) by {
            if last == seq![sep()] {
                assert(last[0] == sep());
                assert(last.contains(sep()));
            }
        }
        assert(seq![dot(), dot()] != seq![sep()]) by {
            assert(seq![dot(), dot()].len() != seq![sep()].len());
        }
        assert(seq![dot(), dot()] != seq![dot()]) by {
            assert(seq![dot(), dot()].len() != seq![dot()].len());
        }
        assert(stack.drop_last() =~= from.take(from.len() - i));
    }
}

/// From `start` on, the search for a common ancestor ends at an ancestor
/// that is a prefix, when the last ancestor it may try is one.
proof fn lemma_first_common_ancestor_found(from: Seq<Seq<u8>>, to: Seq<Seq<u8>>, start: int)
    requires
        0 <= start <= parent_steps(from),
        is_prefix(from.take(from.len() - parent_steps(from)), to),
    ensures
        first_common_ancestor(from, to, start) matches Some(i) && start <= i <= parent_steps(from)
            && is_prefix(from.take(from.len() - i), to),
    decreases parent_steps(from) - start,
{
    if !is_prefix(from.take(from.len() - start), to) {
        lemma_first_common_ancestor_found(from, to, start + 1);
    }
}

/// The facts about a relative path that its cases rest on.
spec fn relative_case(from: Seq<Seq<u8>>, to: Seq<u8>, i: int) -> bool {
    let t = path_components(to);
    &&& is_canonical(from)
    &&& is_canonical(t)
    &&& first_common_ancestor(from, t, 0) == Some(i)
    &&& 0 <= i < from.len()
    &&& is_prefix(from.take(from.len() - i), t)
}

proof fn lemma_rest_normal(from: Seq<Seq<u8>>, to: Seq<u8>, i: int)
    requires
        relative_case(from, to, i),
    ensures
        path_components(to) =~= from.take(from.len() - i) + path_components(to).skip(from.len() - i),
        forall|j: int|
            0 <= j < path_components(to).skip(from.len() - i).len() ==> is_normal_component(
                #[trigger] path_components(to).skip(from.len() - i)[j],
            ),
{
    let t = path_components(to);
    let k = from.len() - i;
    let rest = t.skip(k);
    assert forall|j: int| 0 <= j < rest.len() implies is_normal_component(#[trigger] rest[j]) by {
        assert(rest[j] == t[k + j]);
    }
}

/// The case of the repository directory itself: the path `.`.
proof fn lemma_relative_case_same(from: Seq<Seq<u8>>, to: Seq<u8>)
    requires
        relative_case(from, to, 0),
        path_components(to).skip(from.len() as int).len() == 0,
    ensures
        !has_root(spec_relative_path(from, to)),
        resolve(from, path_components(spec_relative_path(from, to))) == path_components(to),
{
    lemma_rest_normal(from, to, 0);
    let q = spec_relative_path(from, to);
    assert(q == seq![dot()]);
    reveal(Seq::filter);
    assert(!seq![dot()].contains(sep())) by {
        if seq![dot()].contains(sep()) {
            let m = choose|m: int| 0 <= m < seq![dot()].len() && seq![dot()][m] == sep();
        }
    }
    lemma_split_append_plain(Seq::<u8>::empty(), seq![dot()]);
    assert(Seq::<u8>::empty() + seq![dot()] =~= seq![dot()]);
    assert(split_path(Seq::<u8>::empty()) =~= seq![Seq::<u8>::empty()]);
    assert(split_path(seq![dot()]) =~= seq![seq![dot()]]);
    assert(seq![seq![dot()]].drop_last() =~= Seq::<Seq<u8>>::empty());
    assert(!is_kept_segment()(seq![dot()]));
    assert(seq![seq![dot()]].drop_last().filter(is_kept_segment()) =~= Seq::<Seq<u8>>::empty());
    assert(split_path(q).filter(is_kept_segment()) =~= Seq::<Seq<u8>>::empty());
    assert(has_cur_dir(q));
    assert(leading_components(q) =~= seq![seq![dot()]]);
    assert(path_components(q) =~= seq![seq![dot()]]);
    assert(seq![dot()] != seq![sep()]) by {
        assert(seq![dot()][0] != seq![sep()][0]);
    }
    assert(resolve(from, seq![seq![dot()]].drop_last()) == from);
    assert(resolve(from, seq![seq![dot()]]) == from);
    assert(from.take(from.len() as int) =~= from);
}

/// The case of a workspace under the repository directory: down its names.
proof fn lemma_relative_case_below(from: Seq<Seq<u8>>, to: Seq<u8>)
    requires
        relative_case(from, to, 0),
        path_components(to).skip(from.len() as int).len() > 0,
    ensures
        !has_root(spec_relative_path(from, to)),
        resolve(from, path_components(spec_relative_path(from, to))) == path_components(to),
{
    lemma_rest_normal(from, to, 0);
    let rest = path_components(to).skip(from.len() as int);
    assert(rest[0] != seq![sep()]) by {
        if rest[0] == seq![sep()] {
            assert(rest[0][0] == sep());
            assert(rest[0].contains(sep()));
        }
    }
    assert(spec_serialize(rest) == join_segments(rest));
    lemma_components_of_join(rest);
    assert(parent_dirs(0) =~= Seq::<u8>::empty());
    assert(spec_relative_path(from, to) == join_segments(rest));
    lemma_resolve_names(from, rest);
    assert(from.take(from.len() as int) =~= from);
}

/// The last byte of `i` parent directories, `i > 0`, is a dot.
proof fn lemma_parent_dirs_last(i: nat)
    requires
        i > 0,
    ensures
        parent_dirs(i).len() >= 2,
        parent_dirs(i).last() == dot(),
        parent_dirs(i)[0] == dot(),
        parent_dirs(i)[1] == dot(),
    decreases i,
{
    if i > 1 {
        lemma_parent_dirs_last((i - 1) as nat);
        assert(parent_dirs(i) =~= parent_dirs((i - 1) as nat) + seq![sep(), dot(), dot()]);
    }
}

/// The case of a workspace beside the repository directory: up, then down.
proof fn lemma_relative_case_beside(from: Seq<Seq<u8>>, to: Seq<u8>, i: int)
    requires
        relative_case(from, to, i),
        i > 0,
        path_components(to).skip(from.len() - i).len() > 0,
    ensures
        !has_root(spec_relative_path(from, to)),
        resolve(from, path_components(spec_relative_path(from, to))) == path_components(to),
{
    lemma_rest_normal(from, to, i);
    let k = from.len() - i;
    let rest = path_components(to).skip(k);
    let dots = parent_dir_components(i as nat);
    lemma_parent_dirs_join(i as nat);
    lemma_parent_dirs_last(i as nat);
    assert(rest[0] != seq![sep()]) by {
        if rest[0] == seq![sep()] {
            assert(rest[0][0] == sep());
            assert(rest[0].contains(sep()));
        }
    }
    assert(spec_serialize(rest) == join_segments(rest));
    lemma_components_of_join(rest);
    let pd = parent_dirs(i as nat);
    let q = spec_relative_path(from, to);
    assert(q == pd + seq![sep()] + join_segments(rest));
    lemma_join_segments_concat(dots, rest);
    let all = dots + rest;
    assert forall|j: int| 0 <= j < all.len() implies (is_normal_component(#[trigger] all[j])
        || all[j] == seq![dot(), dot()]) by {
        if j < dots.len() {
            assert(all[j] == dots[j]);
        } else {
            assert(all[j] == rest[j - dots.len()]);
        }
    }
    lemma_components_of_join(all);
    assert(q == join_segments(all));
    lemma_resolve_concat(from, dots, rest);
    lemma_resolve_parents(from, i as nat);
    lemma_resolve_names(from.take(k), rest);
}

/// The case of a workspace that holds the repository directory: up only.
proof fn lemma_relative_case_above(from: Seq<Seq<u8>>, to: Seq<u8>, i: int)
    requires
        relative_case(from, to, i),
        i > 0,
        path_components(to).skip(from.len() - i).len() == 0,
    ensures
        !has_root(spec_relative_path(from, to)),
        resolve(from, path_components(spec_relative_path(from, to))) == path_components(to),
{
    lemma_rest_normal(from, to, i);
    let k = from.len() - i;
    let rest = path_components(to).skip(k);
    let dots = parent_dir_components(i as nat);
    lemma_parent_dirs_join(i as nat);
    lemma_parent_dirs_last(i as nat);
    let pd = parent_dirs(i as nat);
    let q = spec_relative_path(from, to);
    assert(spec_serialize(rest) =~= Seq::<u8>::empty());
    assert(q =~= pd + seq![sep()]);
    assert forall|j: int| 0 <= j < dots.len() implies !(#[trigger] dots[j]).contains(sep()) by {
        if dots[j].contains(sep()) {
            let m = choose|m: int| 0 <= m < dots[j].len() && dots[j][m] == sep();
        }
    }
    lemma_split_append_sep(pd);
    lemma_split_join(dots);
    dots.lemma_filter_push(Seq::<u8>::empty(), is_kept_segment());
    assert forall|j: int| 0 <= j < dots.len() implies is_kept_segment()(#[trigger] dots[j]) by {
        assert(dots[j].len() == 2);
    }
    lemma_filter_all_kept(dots);
    assert(q[0] == dot());
    assert(q[1] == dot());
    assert(leading_components(q) =~= Seq::<Seq<u8>>::empty());
    assert(path_components(q) =~= dots);
    lemma_resolve_parents(from, i as nat);
}

/// For a repository directory and a workspace whose paths are canonical,
/// the recorded relative path is relative, and following it from the
/// repository directory leads back to the workspace.
pub proof fn lemma_relative_path_leads_back(from: Seq<Seq<u8>>, to: Seq<u8>)
    requires
        is_canonical(from),
        is_canonical(path_components(to)),
    ensures
        !has_root(spec_relative_path(from, to)),
        resolve(from, path_components(spec_relative_path(from, to))) == path_components(to),
{
    let t = path_components(to);
    let n = from.len();
    assert(parent_steps(from) == n - 1);
    assert(from.take(1) =~= seq![seq![sep()]]);
    assert(t.take(1) =~= seq![seq![sep()]]);
    lemma_first_common_ancestor_found(from, t, 0);
    let i = first_common_ancestor(from, t, 0)->Some_0;
    assert(relative_case(from, to, i));
    if i == 0 {
        if t.skip(n as int).len() == 0 {
            lemma_relative_case_same(from, to);
        } else {
            lemma_relative_case_below(from, to);
        }
    } else {
        if t.skip(n - i).len() == 0 {
            lemma_relative_case_above(from, to, i);
        } else {
            lemma_relative_case_beside(from, to, i);
        }
    }
}

} // verus!
