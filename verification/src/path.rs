//! File-system paths as the library sees them: an optional root followed by
//! components, read the way std's `Path::components` reads a Unix path.
use vstd::prelude::*;
use crate::order::{
    lemma_filter_single, lemma_insert_sorted, lemma_map_insert, lemma_map_push, lex_lt, sorted_by, strict_total,
    lemma_lex_strict_total,
};
use crate::text::{chars_less, chars_of, str_lt, string_of, lemma_str_lt_strict_total};

verus! {

broadcast use vstd::seq_lib::group_seq_properties;

/// What a path is: whether it starts at the root, and its components in
/// order. A component is `.` (only ever first, in a relative path), `..`,
/// or a name; it is never empty and never holds `/`.
pub struct PathView {
    pub absolute: bool,
    pub parts: Seq<Seq<char>>,
}

pub open spec fn dot() -> Seq<char> {
    seq!['.']
}

pub open spec fn dot_dot() -> Seq<char> {
    seq!['.', '.']
}

/// The pieces of `s` between slashes (there is always at least one).
pub open spec fn split_slash(s: Seq<char>) -> Seq<Seq<char>>
    decreases s.len(),
{
    if s.len() == 0 {
        seq![Seq::<char>::empty()]
    } else {
        let r = split_slash(s.drop_last());
        if s.last() == '/' {
            r.push(Seq::<char>::empty())
        } else {
            r.update(r.len() - 1, r.last().push(s.last()))
        }
    }
}

/// A piece between slashes that names a component on its own: empty pieces
/// (from repeated or trailing slashes) and `.` pieces are dropped.
pub open spec fn keep_piece(p: Seq<char>) -> bool {
    p.len() > 0 && p != dot()
}

pub open spec fn keep_fn() -> spec_fn(Seq<char>) -> bool {
    |p: Seq<char>| keep_piece(p)
}

/// A leading `.` piece stands as a component of its own.
pub open spec fn leading_dot(pieces: Seq<Seq<char>>) -> Seq<Seq<char>> {
    if pieces.len() > 0 && pieces[0] == dot() {
        seq![dot()]
    } else {
        Seq::empty()
    }
}

/// The path that the text `s` denotes (std's `Path::new(s).components()` on Unix).
pub open spec fn parse_path(s: Seq<char>) -> PathView {
    let pieces = split_slash(s);
    PathView {
        absolute: s.len() > 0 && s[0] == '/',
        parts: leading_dot(pieces) + pieces.filter(keep_fn()),
    }
}

/// The path without its last component (std's `Path::parent`); none for the
/// root alone and for the empty path.
pub open spec fn parent_of(p: PathView) -> Option<PathView> {
    if p.parts.len() == 0 {
        None
    } else {
        Some(PathView { absolute: p.absolute, parts: p.parts.drop_last() })
    }
}

/// The last component when it is a name (std's `Path::file_name`).
pub open spec fn file_name_of(p: PathView) -> Option<Seq<char>> {
    if p.parts.len() > 0 && p.parts.last() != dot() && p.parts.last() != dot_dot() {
        Some(p.parts.last())
    } else {
        None
    }
}

/// `q` appended to `p` (std's `PathBuf::push`): an absolute `q` replaces `p`;
/// a leading `.` of `q` vanishes once it stands inside a non-empty path.
pub open spec fn join_of(p: PathView, q: PathView) -> PathView {
    if q.absolute {
        q
    } else if (p.absolute || p.parts.len() > 0) && q.parts.len() > 0 && q.parts[0] == dot() {
        PathView { absolute: p.absolute, parts: p.parts + q.parts.drop_first() }
    } else {
        PathView { absolute: p.absolute, parts: p.parts + q.parts }
    }
}

/// `p` with one more component, the name `name`.
pub open spec fn child_of(p: PathView, name: Seq<char>) -> PathView {
    PathView { absolute: p.absolute, parts: p.parts.push(name) }
}

/// A name fit to be one component: not empty, no `/`, not `.` or `..`.
pub open spec fn plain_name(name: Seq<char>) -> bool {
    &&& name.len() > 0
    &&& forall|i: int| 0 <= i < name.len() ==> name[i] != '/'
    &&& name != dot()
    &&& name != dot_dot()
}

/// A name fit to be appended as one component: not empty, no `/`, not `.`.
pub open spec fn component_name(name: Seq<char>) -> bool {
    &&& name.len() > 0
    &&& forall|i: int| 0 <= i < name.len() ==> name[i] != '/'
    &&& name != dot()
}

/// Position of the last `.` in `s`, if any.
pub open spec fn last_dot(s: Seq<char>) -> Option<int>
    decreases s.len(),
{
    if s.len() == 0 {
        None
    } else if s.last() == '.' {
        Some(s.len() - 1)
    } else {
        last_dot(s.drop_last())
    }
}

/// The extension of a file name (std's `Path::extension`): what follows the
/// last `.`, unless there is none or it is the first character.
pub open spec fn extension_of(p: PathView) -> Option<Seq<char>> {
    match file_name_of(p) {
        None => None,
        Some(name) => match last_dot(name) {
            Some(i) if i > 0 => Some(name.subrange(i + 1, name.len() as int)),
            _ => None,
        },
    }
}

/// The file name without its extension (std's `Path::file_stem`).
pub open spec fn file_stem_of(p: PathView) -> Option<Seq<char>> {
    match file_name_of(p) {
        None => None,
        Some(name) => match last_dot(name) {
            Some(i) if i > 0 => Some(name.subrange(0, i)),
            _ => Some(name),
        },
    }
}

/// Where `last_dot` points: at a `.` with none after it; with no position,
/// there is no `.` at all.
proof fn lemma_last_dot(s: Seq<char>)
    ensures
        match last_dot(s) {
            Some(i) => 0 <= i < s.len() && s[i] == '.' && forall|j: int|
                i < j < s.len() ==> s[j] != '.',
            None => forall|j: int| 0 <= j < s.len() ==> s[j] != '.',
        },
    decreases s.len(),
{
    if s.len() > 0 && s.last() != '.' {
        let t = s.drop_last();
        lemma_last_dot(t);
        assert forall|j: int| 0 <= j < t.len() implies t[j] == s[j] by {}
        assert(s[s.len() - 1] != '.');
    }
}

/// The last `.` of `s` is at `i` when `s[i]` is a `.` and none follows it.
proof fn lemma_last_dot_at(s: Seq<char>, i: int)
    requires
        0 <= i < s.len(),
        s[i] == '.',
        forall|j: int| i < j < s.len() ==> s[j] != '.',
    ensures
        last_dot(s) == Some(i),
{
    lemma_last_dot(s);
}

/// When a file name's last dot is not its first character, its extension
/// (std's `Path::extension`) is what follows that dot and its stem
/// (`Path::file_stem`) what precedes it: `R.app` has the extension `app`
/// and the stem `R`.
pub proof fn lemma_extension_after_last_dot(p: PathView, name: Seq<char>, i: int)
    requires
        file_name_of(p) == Some(name),
        1 <= i < name.len(),
        name[i] == '.',
        forall|j: int| i < j < name.len() ==> name[j] != '.',
    ensures
        extension_of(p) == Some(name.subrange(i + 1, name.len() as int)),
        file_stem_of(p) == Some(name.subrange(0, i)),
{
    lemma_last_dot_at(name, i);
}

/// A file name with no dot after its first character has no extension and
/// is its own stem (`.bashrc`, `README`).
pub proof fn lemma_no_extension(p: PathView, name: Seq<char>)
    requires
        file_name_of(p) == Some(name),
        forall|j: int| 1 <= j < name.len() ==> name[j] != '.',
    ensures
        extension_of(p) is None,
        file_stem_of(p) == Some(name),
{
    lemma_last_dot(name);
}

/// A path with a file name has a stem; the stem, a dot and the extension,
/// where there is one, give the file name back, and without an extension the
/// stem is the file name. The extension never holds a dot.
pub proof fn lemma_stem_and_extension(p: PathView)
    ensures
        file_stem_of(p) is Some <==> file_name_of(p) is Some,
        match (file_name_of(p), file_stem_of(p), extension_of(p)) {
            (Some(name), Some(stem), Some(ext)) => stem + seq!['.'] + ext == name && forall|j: int|
                0 <= j < ext.len() ==> ext[j] != '.',
            (Some(name), Some(stem), None) => stem == name,
            _ => true,
        },
{
    if let Some(name) = file_name_of(p) {
        lemma_last_dot(name);
        if let Some(i) = last_dot(name) {
            if i > 0 {
                let ext = name.subrange(i + 1, name.len() as int);
                assert(name.subrange(0, i) + seq!['.'] + ext =~= name);
                assert forall|j: int| 0 <= j < ext.len() implies ext[j] != '.' by {
                    assert(ext[j] == name[i + 1 + j]);
                }
            }
        }
    }
}

/// Rank of a component in std's `Component` order: the root (rank 1) comes
/// first, then `.`, then `..`, then names.
pub open spec fn part_rank(s: Seq<char>) -> int {
    if s == dot() {
        2
    } else if s == dot_dot() {
        3
    } else {
        4
    }
}

/// A component as its rank and its text.
pub open spec fn part_key(s: Seq<char>) -> (int, Seq<char>) {
    (part_rank(s), s)
}

pub open spec fn part_lt() -> spec_fn((int, Seq<char>), (int, Seq<char>)) -> bool {
    |a: (int, Seq<char>), b: (int, Seq<char>)| a.0 < b.0 || (a.0 == b.0 && str_lt(a.1, b.1))
}

/// The components of `p`, the root first when there is one.
pub open spec fn components(p: PathView) -> Seq<(int, Seq<char>)> {
    (if p.absolute {
        seq![(1int, Seq::<char>::empty())]
    } else {
        Seq::empty()
    }) + p.parts.map_values(|s: Seq<char>| part_key(s))
}

/// `p` comes strictly before `q` in std's `Path` order: component by component.
pub open spec fn path_lt(p: PathView, q: PathView) -> bool {
    lex_lt(components(p), components(q), part_lt())
}

pub open spec fn path_order() -> spec_fn(PathView, PathView) -> bool {
    |p: PathView, q: PathView| path_lt(p, q)
}

/// Paths in `s` are in non-decreasing `Path` order.
pub open spec fn paths_sorted(s: Seq<PathView>) -> bool {
    sorted_by(s, path_order())
}

pub proof fn lemma_part_lt_strict_total()
    ensures
        strict_total(part_lt()),
{
    lemma_str_lt_strict_total();
    let s = |a: Seq<char>, b: Seq<char>| str_lt(a, b);
    assert forall|x: (int, Seq<char>)| !#[trigger] part_lt()(x, x) by {
        assert(!s(x.1, x.1));
    }
    assert forall|x: (int, Seq<char>), y: (int, Seq<char>), z: (int, Seq<char>)|
        #[trigger] part_lt()(x, y) && #[trigger] part_lt()(y, z) implies part_lt()(x, z) by {
        if x.0 == y.0 && y.0 == z.0 {
            assert(s(x.1, y.1) && s(y.1, z.1));
        }
    }
    assert forall|x: (int, Seq<char>), y: (int, Seq<char>)| x != y implies #[trigger] part_lt()(
        x,
        y,
    ) || #[trigger] part_lt()(y, x) by {
        if x.0 == y.0 {
            assert(s(x.1, y.1) || s(y.1, x.1));
        }
    }
}

proof fn lemma_components_injective(x: PathView, y: PathView)
    requires
        components(x) == components(y),
    ensures
        x == y,
{
    let cx = components(x);
    let cy = components(y);
    if x.absolute != y.absolute {
        if x.absolute {
            assert(cx[0].0 == 1);
            assert(cy[0] == part_key(y.parts[0]));
        } else {
            assert(cy[0].0 == 1);
            assert(cx[0] == part_key(x.parts[0]));
        }
    }
    let off: int = if x.absolute {
        1
    } else {
        0
    };
    assert(x.absolute == y.absolute);
    assert(cx.len() == off + x.parts.len());
    assert(cy.len() == off + y.parts.len());
    assert(x.parts.len() == y.parts.len());
    assert forall|k: int| 0 <= k < x.parts.len() implies x.parts[k] == y.parts[k] by {
        assert(cx[k + off] == part_key(x.parts[k]));
        assert(cy[k + off] == part_key(y.parts[k]));
    }
    assert(x.parts =~= y.parts);
}

/// `Path` order is a strict total order on path views.
pub proof fn lemma_path_lt_strict_total()
    ensures
        strict_total(path_order()),
{
    lemma_part_lt_strict_total();
    lemma_lex_strict_total(part_lt());
    let l = |a: Seq<(int, Seq<char>)>, b: Seq<(int, Seq<char>)>| lex_lt(a, b, part_lt());
    assert forall|x: PathView| !path_lt(x, x) by {
        assert(!l(components(x), components(x)));
    }
    assert forall|x: PathView, y: PathView, z: PathView|
        #[trigger] path_lt(x, y) && #[trigger] path_lt(y, z) implies path_lt(x, z) by {
        assert(l(components(x), components(y)) && l(components(y), components(z)));
    }
    assert forall|x: PathView, y: PathView| x != y implies #[trigger] path_lt(x, y)
        || #[trigger] path_lt(y, x) by {
        if components(x) == components(y) {
            lemma_components_injective(x, y);
        }
        assert(l(components(x), components(y)) || l(components(y), components(x)));
    }
}

// ---------------------------------------------------------------------------
// The executable path
// ---------------------------------------------------------------------------

/// A path read into its root and components.
struct Components {
    absolute: bool,
    parts: Vec<String>,
}

pub open spec fn part_views(v: Seq<String>) -> Seq<Seq<char>> {
    v.map_values(|s: String| s@)
}

impl View for Components {
    type V = PathView;

    closed spec fn view(&self) -> PathView {
        PathView { absolute: self.absolute, parts: part_views(self.parts@) }
    }
}

fn clone_parts(v: &Vec<String>) -> (r: Vec<String>)
    ensures
        part_views(r@) == part_views(v@),
{
    let mut r: Vec<String> = Vec::new();
    for i in 0..v.len()
        invariant
            part_views(r@) == part_views(v@).take(i as int),
    {
        let ghost before = r@;
        r.push(v[i].clone());
        proof {
            lemma_map_push(before, v@[i as int], |s: String| s@);
        }
        assert(part_views(r@) =~= part_views(v@).take(i + 1));
    }
    assert(part_views(v@).take(v.len() as int) =~= part_views(v@));
    r
}

/// Takes the piece `cur` that a slash or the end of the text closed: it
/// becomes a component when it names one, or when it is a leading `.`.
fn close_piece(parts: &mut Vec<String>, cur: &Vec<char>, first: bool, Ghost(done): Ghost<Seq<Seq<char>>>)
    requires
        first == (done.len() == 0),
        part_views(old(parts)@) == leading_dot(done) + done.filter(keep_fn()),
    ensures
        part_views(final(parts)@) == leading_dot(done.push(cur@)) + done.push(cur@).filter(keep_fn()),
{
    let is_dot = cur.len() == 1 && cur[0] == '.';
    assert(is_dot == (cur@ == dot())) by {
        if cur@.len() == 1 && cur@[0] == '.' {
            assert(cur@ =~= dot());
        }
    }
    let keeps = cur.len() > 0 && !is_dot;
    proof {
        done.lemma_filter_push(cur@, keep_fn());
    }
    let ghost before = parts@;
    if (first && is_dot) || keeps {
        let piece = string_of(cur);
        parts.push(piece);
        proof {
            lemma_map_push(before, piece, |s: String| s@);
        }
    }
    proof {
        let nd = done.push(cur@);
        if done.len() == 0 {
            assert(nd[0] == cur@);
        } else {
            assert(nd[0] == done[0]);
        }
        assert(part_views(parts@) =~= leading_dot(nd) + nd.filter(keep_fn()));
    }
}

impl Components {
    /// The root and components of the text `s`.
    fn parse(s: &str) -> (r: Components)
        ensures
            r@ == parse_path(s@),
    {
        let cs = chars_of(s);
        let absolute = cs.len() > 0 && cs[0] == '/';
        let mut parts: Vec<String> = Vec::new();
        let mut cur: Vec<char> = Vec::new();
        let mut any_done = false;
        let ghost mut done: Seq<Seq<char>> = Seq::empty();
        proof {
            reveal(Seq::filter);
        }
        assert(cs@.take(0) =~= Seq::<char>::empty());
        assert(done + seq![cur@] =~= split_slash(cs@.take(0)));
        assert(part_views(parts@) =~= leading_dot(done) + done.filter(keep_fn()));
        for i in 0..cs.len()
            invariant
                done + seq![cur@] == split_slash(cs@.take(i as int)),
                any_done == (done.len() > 0),
                part_views(parts@) == leading_dot(done) + done.filter(keep_fn()),
        {
            let ghost prev = cs@.take(i as int);
            assert(cs@.take(i + 1).drop_last() =~= prev);
            if cs[i] == '/' {
                close_piece(&mut parts, &cur, !any_done, Ghost(done));
                proof {
                    done = done.push(cur@);
                }
                cur = Vec::new();
                any_done = true;
                assert(done + seq![cur@] =~= split_slash(prev).push(Seq::<char>::empty()));
            } else {
                let c = cs[i];
                cur.push(c);
                assert(done + seq![cur@] =~= split_slash(prev).update(
                    split_slash(prev).len() - 1,
                    split_slash(prev).last().push(c),
                ));
            }
        }
        assert(cs@.take(cs.len() as int) =~= cs@);
        close_piece(&mut parts, &cur, !any_done, Ghost(done));
        assert(done.push(cur@) =~= split_slash(cs@));
        Components { absolute, parts }
    }

    /// The last component, when it is a name.
    fn file_name(&self) -> (r: Option<String>)
        ensures
            match r {
                Some(n) => file_name_of(self@) == Some(n@),
                None => file_name_of(self@) is None,
            },
    {
        let n = self.parts.len();
        if n == 0 {
            return None;
        }
        let last = chars_of(self.parts[n - 1].as_str());
        let is_dot = last.len() == 1 && last[0] == '.';
        let is_dot_dot = last.len() == 2 && last[0] == '.' && last[1] == '.';
        assert(is_dot == (last@ == dot())) by {
            if last@.len() == 1 && last@[0] == '.' {
                assert(last@ =~= dot());
            }
        }
        assert(is_dot_dot == (last@ == dot_dot())) by {
            if last@.len() == 2 && last@[0] == '.' && last@[1] == '.' {
                assert(last@ =~= dot_dot());
            }
        }
        if is_dot || is_dot_dot {
            None
        } else {
            Some(self.parts[n - 1].clone())
        }
    }

    /// Whether two paths have the same root and components.
    fn same_as(&self, other: &Components) -> (r: bool)
        ensures
            r == (self@ == other@),
    {
        if self.absolute != other.absolute {
            return false;
        }
        if self.parts.len() != other.parts.len() {
            assert(part_views(self.parts@).len() != part_views(other.parts@).len());
            return false;
        }
        let n = self.parts.len();
        for i in 0..n
            invariant
                n == self.parts.len(),
                n == other.parts.len(),
                forall|k: int| 0 <= k < i ==> self.parts@[k]@ == other.parts@[k]@,
        {
            if self.parts[i] != other.parts[i] {
                assert(part_views(self.parts@)[i as int] != part_views(other.parts@)[i as int]);
                return false;
            }
        }
        assert(part_views(self.parts@) =~= part_views(other.parts@));
        true
    }

    fn components_exec(&self) -> (r: Vec<(u8, Vec<char>)>)
        ensures
            r@.map_values(|c: (u8, Vec<char>)| (c.0 as int, c.1@)) == components(self@),
    {
        let ghost f = |c: (u8, Vec<char>)| (c.0 as int, c.1@);
        let mut r: Vec<(u8, Vec<char>)> = Vec::new();
        if self.absolute {
            r.push((1u8, Vec::new()));
        }
        let ghost lead = r@.map_values(f);
        assert(lead =~= (if self.absolute {
            seq![(1int, Seq::<char>::empty())]
        } else {
            Seq::<(int, Seq<char>)>::empty()
        }));
        let ghost keys = part_views(self.parts@).map_values(|s: Seq<char>| part_key(s));
        let n = self.parts.len();
        for i in 0..n
            invariant
                n == self.parts.len(),
                f == (|c: (u8, Vec<char>)| (c.0 as int, c.1@)),
                keys == part_views(self.parts@).map_values(|s: Seq<char>| part_key(s)),
                r@.map_values(f) == lead + keys.take(i as int),
        {
            let cs = chars_of(self.parts[i].as_str());
            let rank = part_rank_exec(&cs);
            let ghost before = r@;
            r.push((rank, cs));
            proof {
                lemma_map_push(before, (rank, cs), f);
            }
            assert(r@.map_values(f) =~= lead + keys.take(i + 1));
        }
        assert(keys.take(n as int) =~= keys);
        r
    }

    /// Whether this path comes strictly before `other` in `Path` order.
    fn less_than(&self, other: &Components) -> (r: bool)
        ensures
            r == path_lt(self@, other@),
    {
        let a = self.components_exec();
        let b = other.components_exec();
        let ghost f = |c: (u8, Vec<char>)| (c.0 as int, c.1@);
        let ghost av = a@.map_values(f);
        let ghost bv = b@.map_values(f);
        let mut i: usize = 0;
        assert(av.skip(0) =~= av);
        assert(bv.skip(0) =~= bv);
        while i < a.len() && i < b.len()
            invariant
                i <= a.len(),
                i <= b.len(),
                f == (|c: (u8, Vec<char>)| (c.0 as int, c.1@)),
                av == a@.map_values(f),
                bv == b@.map_values(f),
                path_lt(self@, other@) == lex_lt(av.skip(i as int), bv.skip(i as int), part_lt()),
            decreases a.len() - i,
        {
            assert(av.skip(i as int)[0] == f(a@[i as int]));
            assert(bv.skip(i as int)[0] == f(b@[i as int]));
            let ra = a[i].0;
            let rb = b[i].0;
            let less_ab = chars_less(&a[i].1, &b[i].1);
            let less_ba = chars_less(&b[i].1, &a[i].1);
            if ra != rb || less_ab || less_ba {
                proof {
                    lemma_str_lt_strict_total();
                    let s = |x: Seq<char>, y: Seq<char>| str_lt(x, y);
                    if a@[i as int].1@ == b@[i as int].1@ {
                        assert(!s(a@[i as int].1@, a@[i as int].1@));
                    }
                }
                return ra < rb || (ra == rb && less_ab);
            }
            proof {
                lemma_str_lt_strict_total();
                let s = |x: Seq<char>, y: Seq<char>| str_lt(x, y);
                assert(a@[i as int].1@ == b@[i as int].1@) by {
                    if a@[i as int].1@ != b@[i as int].1@ {
                        assert(s(a@[i as int].1@, b@[i as int].1@) || s(b@[i as int].1@, a@[i as int].1@));
                    }
                }
                assert(f(a@[i as int]) == f(b@[i as int]));
            }
            assert(av.skip(i as int).drop_first() =~= av.skip(i + 1));
            assert(bv.skip(i as int).drop_first() =~= bv.skip(i + 1));
            i = i + 1;
        }
        i < b.len()
    }

    /// The extension of the file name, if it has one.
    fn extension(&self) -> (r: Option<String>)
        ensures
            match r {
                Some(e) => extension_of(self@) == Some(e@),
                None => extension_of(self@) is None,
            },
    {
        match self.file_name() {
            None => None,
            Some(name) => {
                let cs = chars_of(name.as_str());
                match last_dot_exec(&cs) {
                    Some(i) => {
                        proof {
                            lemma_last_dot_bounds(cs@);
                        }
                        assert(i < cs.len());
                        if i > 0 {
                            let mut ext: Vec<char> = Vec::new();
                            let mut k = i + 1;
                            while k < cs.len()
                                invariant
                                    i < cs.len(),
                                    i + 1 <= k <= cs.len(),
                                    ext@ == cs@.subrange(i + 1, k as int),
                                decreases cs.len() - k,
                            {
                                ext.push(cs[k]);
                                assert(ext@ =~= cs@.subrange(i + 1, k + 1));
                                k = k + 1;
                            }
                            Some(string_of(&ext))
                        } else {
                            None
                        }
                    },
                    None => None,
                }
            },
        }
    }

    /// The file name without its extension, if there is a file name.
    fn file_stem(&self) -> (r: Option<String>)
        ensures
            match r {
                Some(e) => file_stem_of(self@) == Some(e@),
                None => file_stem_of(self@) is None,
            },
    {
        match self.file_name() {
            None => None,
            Some(name) => {
                let cs = chars_of(name.as_str());
                match last_dot_exec(&cs) {
                    Some(i) => {
                        proof {
                            lemma_last_dot_bounds(cs@);
                        }
                        assert(i < cs.len());
                        if i > 0 {
                            let mut stem: Vec<char> = Vec::new();
                            let mut k: usize = 0;
                            while k < i
                                invariant
                                    i < cs.len(),
                                    k <= i,
                                    stem@ == cs@.subrange(0, k as int),
                                decreases i - k,
                            {
                                stem.push(cs[k]);
                                assert(stem@ =~= cs@.subrange(0, k + 1));
                                k = k + 1;
                            }
                            Some(string_of(&stem))
                        } else {
                            Some(name)
                        }
                    },
                    None => Some(name),
                }
            },
        }
    }
}

fn part_rank_exec(s: &Vec<char>) -> (r: u8)
    ensures
        r as int == part_rank(s@),
{
    if s.len() == 1 && s[0] == '.' {
        assert(s@ =~= dot());
        2
    } else if s.len() == 2 && s[0] == '.' && s[1] == '.' {
        assert(s@ =~= dot_dot());
        3
    } else {
        assert(s@ != dot()) by {
            if s@ == dot() {
                assert(s@.len() == 1 && s@[0] == '.');
            }
        }
        assert(s@ != dot_dot()) by {
            if s@ == dot_dot() {
                assert(s@.len() == 2 && s@[0] == '.' && s@[1] == '.');
            }
        }
        4
    }
}

proof fn lemma_last_dot_bounds(s: Seq<char>)
    ensures
        last_dot(s) matches Some(i) ==> 0 <= i < s.len() && s[i] == '.' && forall|k: int|
            i < k < s.len() ==> s[k] != '.',
        last_dot(s) is None ==> forall|k: int| 0 <= k < s.len() ==> s[k] != '.',
    decreases s.len(),
{
    if s.len() > 0 && s.last() != '.' {
        lemma_last_dot_bounds(s.drop_last());
        assert forall|k: int| 0 <= k < s.len() - 1 implies s[k] == s.drop_last()[k] by {}
    }
}

fn last_dot_exec(s: &Vec<char>) -> (r: Option<usize>)
    ensures
        match r {
            Some(i) => last_dot(s@) == Some(i as int),
            None => last_dot(s@) is None,
        },
{
    let mut n = s.len();
    assert(s@.take(n as int) =~= s@);
    while n > 0
        invariant
            n <= s.len(),
            last_dot(s@) == last_dot(s@.take(n as int)),
        decreases n,
    {
        assert(s@.take(n as int).drop_last() =~= s@.take(n - 1));
        if s[n - 1] == '.' {
            return Some(n - 1);
        }
        n = n - 1;
    }
    None
}

// ---------------------------------------------------------------------------
// Laws
// ---------------------------------------------------------------------------

/// Going into a directory entry and then up leads back: the parent of a
/// child is the directory it was named in, and its file name is that name.
pub proof fn lemma_child_parent(p: PathView, name: Seq<char>)
    requires
        name != dot(),
        name != dot_dot(),
    ensures
        parent_of(child_of(p, name)) == Some(p),
        file_name_of(child_of(p, name)) == Some(name),
{
    assert(child_of(p, name).parts.drop_last() =~= p.parts);
}

/// A path is the child of its parent named by its file name.
pub proof fn lemma_parent_child(p: PathView)
    requires
        file_name_of(p) is Some,
    ensures
        parent_of(p) is Some,
        child_of(parent_of(p)->0, file_name_of(p)->0) == p,
{
    assert(p.parts.drop_last().push(p.parts.last()) =~= p.parts);
}

/// A piece of text without a slash is one piece.
proof fn lemma_split_no_slash(s: Seq<char>)
    requires
        forall|i: int| 0 <= i < s.len() ==> s[i] != '/',
    ensures
        split_slash(s) == seq![s],
    decreases s.len(),
{
    if s.len() > 0 {
        lemma_split_no_slash(s.drop_last());
        assert(s.drop_last().push(s.last()) =~= s);
        assert(seq![s.drop_last()].update(0, s.drop_last().push(s.last())) =~= seq![s]);
    }
}

/// Splitting at a slash splits the two sides separately.
proof fn lemma_split_append(a: Seq<char>, b: Seq<char>)
    ensures
        split_slash(a + seq!['/'] + b) == split_slash(a) + split_slash(b),
    decreases b.len(),
{
    let ab = a + seq!['/'] + b;
    if b.len() == 0 {
        assert(ab.drop_last() =~= a);
        assert(split_slash(a).push(Seq::<char>::empty()) =~= split_slash(a) + seq![Seq::<char>::empty()]);
    } else {
        let b1 = b.drop_last();
        lemma_split_append(a, b1);
        assert(ab.drop_last() =~= a + seq!['/'] + b1);
        assert(ab.last() == b.last());
        let sa = split_slash(a);
        let sb1 = split_slash(b1);
        lemma_split_nonempty(b1);
        if b.last() == '/' {
            assert((sa + sb1).push(Seq::<char>::empty()) =~= sa + sb1.push(Seq::<char>::empty()));
        } else {
            let r = sa + sb1;
            assert(r.last() == sb1.last());
            assert(r.update(r.len() - 1, r.last().push(b.last())) =~= sa + sb1.update(
                sb1.len() - 1,
                sb1.last().push(b.last()),
            ));
        }
    }
}

proof fn lemma_split_nonempty(s: Seq<char>)
    ensures
        split_slash(s).len() >= 1,
    decreases s.len(),
{
    if s.len() > 0 {
        lemma_split_nonempty(s.drop_last());
    }
}

/// Components are pieces of text without slashes.
pub open spec fn slash_free(parts: Seq<Seq<char>>) -> bool {
    forall|i: int, j: int| 0 <= i < parts.len() && 0 <= j < parts[i].len() ==> #[trigger] parts[i][j] != '/'
}

/// A path as text can hold it: components are non-empty and slash-free,
/// and `.` stands only first in a relative path.
pub open spec fn well_formed(p: PathView) -> bool {
    &&& slash_free(p.parts)
    &&& forall|i: int| 0 <= i < p.parts.len() ==> (#[trigger] p.parts[i]).len() > 0
    &&& forall|i: int| 0 <= i < p.parts.len() && #[trigger] p.parts[i] == dot() ==> i == 0 && !p.absolute
}

proof fn lemma_split_slash_free(s: Seq<char>)
    ensures
        slash_free(split_slash(s)),
    decreases s.len(),
{
    if s.len() > 0 {
        lemma_split_slash_free(s.drop_last());
        lemma_split_nonempty(s.drop_last());
        let r = split_slash(s.drop_last());
        if s.last() != '/' {
            let u = r.update(r.len() - 1, r.last().push(s.last()));
            assert forall|i: int, j: int| 0 <= i < u.len() && 0 <= j < u[i].len() implies #[trigger] u[i][j]
                != '/' by {
                if i == r.len() - 1 && j == r.last().len() {
                } else if i == r.len() - 1 {
                    assert(u[i][j] == r[i][j]);
                } else {
                    assert(u[i] == r[i]);
                }
            }
        } else {
            let u = r.push(Seq::<char>::empty());
            assert forall|i: int, j: int| 0 <= i < u.len() && 0 <= j < u[i].len() implies #[trigger] u[i][j]
                != '/' by {
                assert(u[i] == r[i]);
            }
        }
    }
}

/// Every path read from text is well formed: its components are non-empty
/// and slash-free, and `.` stands only first in a relative path.
pub proof fn lemma_parse_well_formed(s: Seq<char>)
    ensures
        well_formed(parse_path(s)),
{
    broadcast use vstd::seq_lib::group_filter_ensures;

    let pieces = split_slash(s);
    let keep = keep_fn();
    let kept = pieces.filter(keep);
    let p = parse_path(s);
    lemma_split_slash_free(s);
    lemma_split_nonempty(s);
    assert forall|i: int| 0 <= i < kept.len() implies keep_piece(#[trigger] kept[i]) && slash_free(seq![kept[i]]) by {
        assert(keep(kept[i]));
        assert(kept.contains(kept[i]));
        pieces.lemma_filter_contains_rev(keep, kept[i]);
        let n = choose|n: int| 0 <= n < pieces.len() && pieces[n] == kept[i];
        assert forall|a: int, b: int| 0 <= a < 1 && 0 <= b < seq![kept[i]][a].len() implies #[trigger] seq![kept[i]][a][b]
            != '/' by {
            assert(pieces[n][b] != '/');
        }
    }
    if s.len() > 0 && s[0] == '/' {
        assert(s =~= Seq::<char>::empty() + seq!['/'] + s.drop_first());
        lemma_split_append(Seq::<char>::empty(), s.drop_first());
        assert(pieces[0] == Seq::<char>::empty());
    }
    let lead = leading_dot(pieces);
    assert(p.parts == lead + kept);
    assert forall|i: int, j: int| 0 <= i < p.parts.len() && 0 <= j < p.parts[i].len() implies #[trigger] p.parts[i][j]
        != '/' by {
        if lead.len() > 0 && i == 0 {
            assert(p.parts[0] == dot());
        } else {
            assert(p.parts[i] == kept[i - lead.len()]);
            assert(slash_free(seq![kept[i - lead.len()]]));
            assert(seq![kept[i - lead.len()]][0][j] != '/');
        }
    }
    assert forall|i: int| 0 <= i < p.parts.len() implies (#[trigger] p.parts[i]).len() > 0 by {
        if lead.len() > 0 && i == 0 {
        } else {
            assert(p.parts[i] == kept[i - lead.len()]);
        }
    }
    assert forall|i: int| 0 <= i < p.parts.len() && #[trigger] p.parts[i] == dot() implies i == 0
        && !p.absolute by {
        if lead.len() > 0 && i == 0 {
        } else {
            assert(p.parts[i] == kept[i - lead.len()]);
            assert(keep_piece(kept[i - lead.len()]));
        }
    }
}

/// The file name of a well-formed path is a plain name.
pub proof fn lemma_file_name_plain(p: PathView)
    requires
        well_formed(p),
    ensures
        file_name_of(p) matches Some(n) ==> plain_name(n),
{
    if p.parts.len() > 0 {
        let k = p.parts.len() - 1;
        assert(p.parts.last() == p.parts[k]);
        assert forall|j: int| 0 <= j < p.parts[k].len() implies p.parts[k][j] != '/' by {}
    }
}

// ---------------------------------------------------------------------------
// Paths as text
// ---------------------------------------------------------------------------

/// The text `q` appended to the path text `p` (std's `PathBuf::push`): an
/// absolute `q` replaces `p`; otherwise a `/` goes between them unless `p`
/// is empty or already ends in one.
pub open spec fn join_text(p: Seq<char>, q: Seq<char>) -> Seq<char> {
    if q.len() > 0 && q[0] == '/' {
        q
    } else if p.len() > 0 && p.last() != '/' {
        p + seq!['/'] + q
    } else {
        p + q
    }
}

/// What std's `Path::parent` returns for the path text `s`: the text of the
/// path without its last component, a prefix of `s`.
pub uninterp spec fn std_parent(s: Seq<char>) -> Option<Seq<char>>;

/// Calls std's `Path::parent` on the path text `s`. Claimed: the result is
/// `std_parent` of `s`; there is one exactly when the path has a last
/// component below the root, and it is the path without that component
/// (std's documentation: "the Path without its final component").
#[verifier::external_body]
fn path_parent(s: &str) -> (r: Option<String>)
    ensures
        match r {
            Some(t) => std_parent(s@) == Some(t@),
            None => std_parent(s@) is None,
        },
        r is Some <==> parent_of(parse_path(s@)) is Some,
        r matches Some(t) ==> parse_path(t@) == parent_of(parse_path(s@))->0,
{
    std::path::Path::new(s).parent().map(|q| q.to_string_lossy().into_owned())
}

/// The file name of `p`, or nothing.
pub open spec fn name_or_empty(p: Seq<char>) -> Seq<char> {
    match file_name_of(parse_path(p)) {
        Some(n) => n,
        None => Seq::empty(),
    }
}

/// The file name of the path `p` (`file_name().unwrap_or_default()`).
pub(crate) fn name_text(p: &FsPath) -> (r: String)
    ensures
        r@ == name_or_empty(p@),
{
    match p.file_name() {
        Some(n) => n,
        None => String::new(),
    }
}

/// A path, held as its text (a `PathBuf`). Its meaning is `parse_path` of
/// that text: equality and order go by root and components.
#[derive(Debug, Eq)]
pub struct FsPath {
    text: String,
}

/// Two paths are equal when they have the same root and components, as two
/// `PathBuf`s are: `/a/b` equals `/a/b/` and `/a/./b`.
impl PartialEq for FsPath {
    fn eq(&self, other: &FsPath) -> (r: bool) {
        self.same_as(other)
    }
}

impl vstd::std_specs::cmp::PartialEqSpecImpl for FsPath {
    open spec fn obeys_eq_spec() -> bool {
        true
    }

    open spec fn eq_spec(&self, other: &FsPath) -> bool {
        parse_path(self@) == parse_path(other@)
    }
}

impl View for FsPath {
    type V = Seq<char>;

    closed spec fn view(&self) -> Seq<char> {
        self.text@
    }
}

impl Clone for FsPath {
    fn clone(&self) -> (r: Self)
        ensures
            r@ == self@,
    {
        FsPath { text: self.text.clone() }
    }
}

impl FsPath {
    /// The path with the text `s`.
    pub fn from_text(s: &str) -> (r: FsPath)
        ensures
            r@ == s@,
    {
        FsPath { text: string_of(&chars_of(s)) }
    }

    /// The empty path (what `PathBuf::default()` holds).
    pub fn empty() -> (r: FsPath)
        ensures
            r@ == Seq::<char>::empty(),
    {
        FsPath { text: String::new() }
    }

    /// The text of the path, as it was given.
    pub fn to_text(&self) -> (r: String)
        ensures
            r@ == self@,
    {
        self.text.clone()
    }

    /// The path without its last component (std's `Path::parent`).
    pub fn parent(&self) -> (r: Option<FsPath>)
        ensures
            match r {
                Some(q) => std_parent(self@) == Some(q@),
                None => std_parent(self@) is None,
            },
            r is Some <==> parent_of(parse_path(self@)) is Some,
            r matches Some(q) ==> parse_path(q@) == parent_of(parse_path(self@))->0,
    {
        match path_parent(self.text.as_str()) {
            Some(t) => Some(FsPath { text: t }),
            None => None,
        }
    }

    /// The last component, when it is a name (std's `Path::file_name`).
    pub fn file_name(&self) -> (r: Option<String>)
        ensures
            match r {
                Some(n) => file_name_of(parse_path(self@)) == Some(n@),
                None => file_name_of(parse_path(self@)) is None,
            },
            r matches Some(n) ==> plain_name(n@),
    {
        proof {
            lemma_parse_well_formed(self@);
            lemma_file_name_plain(parse_path(self@));
        }
        Components::parse(self.text.as_str()).file_name()
    }

    /// The text `name` appended to this path (std's `PathBuf::join`).
    pub fn join_str(&self, name: &str) -> (r: FsPath)
        ensures
            r@ == join_text(self@, name@),
    {
        let p = chars_of(self.text.as_str());
        let q = chars_of(name);
        if q.len() > 0 && q[0] == '/' {
            return FsPath { text: string_of(&q) };
        }
        let mut out = chars_of(self.text.as_str());
        if p.len() > 0 && p[p.len() - 1] != '/' {
            out.push('/');
        }
        let ghost head = out@;
        for i in 0..q.len()
            invariant
                out@ == head + q@.take(i as int),
        {
            out.push(q[i]);
            assert(head + q@.take(i + 1) =~= (head + q@.take(i as int)).push(q@[i as int]));
        }
        assert(q@.take(q.len() as int) =~= q@);
        assert(out@ =~= join_text(self@, name@));
        FsPath { text: string_of(&out) }
    }

    /// `other` appended to this path (std's `PathBuf::join`).
    pub fn join(&self, other: &FsPath) -> (r: FsPath)
        ensures
            r@ == join_text(self@, other@),
    {
        self.join_str(other.text.as_str())
    }

    /// Whether two paths have the same root and components (std's `Path` equality).
    pub fn same_as(&self, other: &FsPath) -> (r: bool)
        ensures
            r == (parse_path(self@) == parse_path(other@)),
    {
        Components::parse(self.text.as_str()).same_as(&Components::parse(other.text.as_str()))
    }

    /// Whether this path comes strictly before `other` in std's `Path` order.
    pub fn less_than(&self, other: &FsPath) -> (r: bool)
        ensures
            r == path_lt(parse_path(self@), parse_path(other@)),
    {
        Components::parse(self.text.as_str()).less_than(&Components::parse(other.text.as_str()))
    }

    /// The extension of the file name, if it has one (std's `Path::extension`).
    pub fn extension(&self) -> (r: Option<String>)
        ensures
            match r {
                Some(e) => extension_of(parse_path(self@)) == Some(e@),
                None => extension_of(parse_path(self@)) is None,
            },
    {
        Components::parse(self.text.as_str()).extension()
    }

    /// The file name without its extension (std's `Path::file_stem`).
    pub fn file_stem(&self) -> (r: Option<String>)
        ensures
            match r {
                Some(e) => file_stem_of(parse_path(self@)) == Some(e@),
                None => file_stem_of(parse_path(self@)) is None,
            },
    {
        Components::parse(self.text.as_str()).file_stem()
    }
}

proof fn lemma_first_piece(s: Seq<char>)
    requires
        s.len() > 0,
        s[0] != '/',
    ensures
        split_slash(s)[0].len() > 0,
    decreases s.len(),
{
    let t = s.drop_last();
    if s.len() > 1 {
        assert(t[0] == s[0]);
        lemma_first_piece(t);
        lemma_split_nonempty(t);
        let r = split_slash(t);
        if s.last() == '/' {
            assert(split_slash(s)[0] == r[0]);
        } else if r.len() == 1 {
            assert(split_slash(s)[0] == r.last().push(s.last()));
        } else {
            assert(split_slash(s)[0] == r[0]);
        }
    } else {
        assert(t =~= Seq::<char>::empty());
        assert(split_slash(t) == seq![Seq::<char>::empty()]);
        assert(split_slash(s)[0] == Seq::<char>::empty().push(s.last()));
    }
}

/// A non-empty path text names the root or at least one component.
proof fn lemma_nonempty_text(p: Seq<char>)
    requires
        p.len() > 0,
    ensures
        parse_path(p).absolute || parse_path(p).parts.len() > 0,
{
    broadcast use vstd::seq_lib::group_filter_ensures;

    if p[0] != '/' {
        lemma_first_piece(p);
        let pieces = split_slash(p);
        lemma_split_nonempty(p);
        if pieces[0] != dot() {
            pieces.lemma_filter_contains(keep_fn(), 0);
        }
    }
}

/// Path text `a`, a slash, then `q`: the components of `a`, then those of `q`
/// without a leading `.`.
proof fn lemma_parse_after_slash(a: Seq<char>, q: Seq<char>)
    ensures
        parse_path(a + seq!['/'] + q).parts == parse_path(a).parts + split_slash(q).filter(keep_fn()),
{
    broadcast use vstd::seq_lib::group_filter_ensures;

    let sa = split_slash(a);
    let sq = split_slash(q);
    lemma_split_append(a, q);
    lemma_split_nonempty(a);
    assert((sa + sq)[0] == sa[0]);
    Seq::filter_distributes_over_add(sa, sq, keep_fn());
    assert(leading_dot(sa + sq) == leading_dot(sa));
}

/// Joining path texts joins the paths: the components of `join_text(p, q)`
/// are those that `PathBuf::push` gives for the components of `p` and `q`.
pub proof fn lemma_join_text(p: Seq<char>, q: Seq<char>)
    ensures
        parse_path(join_text(p, q)) == join_of(parse_path(p), parse_path(q)),
{
    broadcast use vstd::seq_lib::group_filter_ensures;

    let pp = parse_path(p);
    let pq = parse_path(q);
    let t = join_text(p, q);
    let sq = split_slash(q);
    let k = keep_fn();
    if q.len() > 0 && q[0] == '/' {
    } else if p.len() == 0 {
        reveal_with_fuel(Seq::filter, 2);
        assert(seq![Seq::<char>::empty()].drop_last() =~= Seq::<Seq<char>>::empty());
        assert(pp.parts =~= Seq::<Seq<char>>::empty());
        assert(t =~= q);
        assert(pp.parts + pq.parts =~= pq.parts);
    } else {
        // the text is `a`, a slash, then `q`, where `a` has the components of `p`
        let a = if p.last() != '/' {
            p
        } else {
            p.drop_last()
        };
        assert(t =~= a + seq!['/'] + q);
        lemma_parse_after_slash(a, q);
        if p.last() == '/' {
            assert(p =~= a + seq!['/'] + Seq::<char>::empty());
            lemma_parse_after_slash(a, Seq::<char>::empty());
            reveal_with_fuel(Seq::filter, 2);
            assert(seq![Seq::<char>::empty()].drop_last() =~= Seq::<Seq<char>>::empty());
            assert(split_slash(Seq::<char>::empty()).filter(k) =~= Seq::<Seq<char>>::empty());
            assert(pp.parts =~= parse_path(a).parts);
        }
        assert(parse_path(t).parts == pp.parts + sq.filter(k));
        assert(t[0] == p[0]);
        lemma_nonempty_text(p);
        lemma_split_nonempty(q);
        if pq.parts.len() > 0 && pq.parts[0] == dot() {
            if leading_dot(sq).len() == 0 {
                assert(sq.filter(k)[0] == dot());
                assert(k(sq.filter(k)[0]));
            }
            assert(pq.parts.drop_first() =~= sq.filter(k));
        } else {
            assert(leading_dot(sq).len() == 0);
            assert(pq.parts =~= sq.filter(k));
        }
    }
}

/// Joining a name that is one component adds it as the last component.
pub proof fn lemma_join_component(p: Seq<char>, name: Seq<char>)
    requires
        component_name(name),
    ensures
        parse_path(join_text(p, name)) == child_of(parse_path(p), name),
{
    lemma_join_text(p, name);
    lemma_parse_one_name(name);
    assert(parse_path(p).parts + seq![name] =~= parse_path(p).parts.push(name));
}

proof fn lemma_parse_one_name(name: Seq<char>)
    requires
        component_name(name),
    ensures
        parse_path(name) == (PathView { absolute: false, parts: seq![name] }),
{
    lemma_split_no_slash(name);
    lemma_filter_single(name, keep_fn());
    assert(leading_dot(seq![name]) =~= Seq::<Seq<char>>::empty());
    assert(parse_path(name).parts =~= seq![name]);
    assert(name[0] != '/');
}

/// The path views of texts: what each denotes.
pub open spec fn path_views(s: Seq<Seq<char>>) -> Seq<PathView> {
    s.map_values(|t: Seq<char>| parse_path(t))
}

/// The texts of paths.
pub open spec fn path_texts(s: Seq<FsPath>) -> Seq<Seq<char>> {
    s.map_values(|p: FsPath| p@)
}

/// The path texts whose path is `k`.
pub open spec fn denoting(k: PathView) -> spec_fn(Seq<char>) -> bool {
    |t: Seq<char>| parse_path(t) == k
}

proof fn lemma_filter_denoting_insert(s: Seq<Seq<char>>, j: int, x: Seq<char>, k: PathView)
    requires
        0 <= j <= s.len(),
        forall|m: int| j <= m < s.len() ==> path_lt(parse_path(x), #[trigger] parse_path(s[m])),
    ensures
        s.insert(j, x).filter(denoting(k)) == (if parse_path(x) == k {
            s.filter(denoting(k)).push(x)
        } else {
            s.filter(denoting(k))
        }),
{
    broadcast use vstd::seq_lib::group_filter_ensures;

    lemma_path_lt_strict_total();
    let p = denoting(k);
    let a = s.take(j);
    let b = s.skip(j);
    assert(s.insert(j, x) =~= a + seq![x] + b);
    assert(s =~= a + b);
    Seq::filter_distributes_over_add(a + seq![x], b, p);
    Seq::filter_distributes_over_add(a, seq![x], p);
    Seq::filter_distributes_over_add(a, b, p);
    lemma_filter_single(x, p);
    if parse_path(x) == k {
        assert forall|m: int| 0 <= m < b.len() implies !p(#[trigger] b[m]) by {
            assert(b[m] == s[j + m]);
            assert(path_lt(parse_path(x), parse_path(s[j + m])));
            if parse_path(s[j + m]) == k {
                assert(path_order()(k, k));
            }
        }
        if b.filter(p).len() > 0 {
            let e = b.filter(p)[0];
            assert(b.filter(p).contains(e));
            b.lemma_filter_contains_rev(p, e);
        }
        assert(b.filter(p) =~= Seq::<Seq<char>>::empty());
        assert(a.filter(p) + seq![x].filter(p) + b.filter(p) =~= (a.filter(p) + b.filter(p)).push(x));
    } else {
        assert(a.filter(p) + seq![x].filter(p) + b.filter(p) =~= a.filter(p) + b.filter(p));
    }
}

/// The paths of `v` in `Path` order (what `Vec::<PathBuf>::sort` leaves, a
/// stable sort): texts of the same path keep the order they came in.
pub fn sort_paths(v: Vec<FsPath>) -> (r: Vec<FsPath>)
    ensures
        path_texts(r@).to_multiset() == path_texts(v@).to_multiset(),
        paths_sorted(path_views(path_texts(r@))),
        forall|k: PathView|
            #[trigger] path_texts(r@).filter(denoting(k)) == path_texts(v@).filter(denoting(k)),
{
    broadcast use vstd::seq_lib::group_to_multiset_ensures;

    let ghost orig = v@;
    let ghost ft = |p: FsPath| p@;
    let ghost fp = |t: Seq<char>| parse_path(t);
    let mut rest = v;
    let mut out: Vec<FsPath> = Vec::new();
    let ghost mut i: int = 0;
    proof {
        lemma_path_lt_strict_total();
        reveal(Seq::filter);
        assert(orig.skip(0) =~= orig);
        assert(orig.take(0) =~= Seq::<FsPath>::empty());
        assert(path_texts(out@) =~= Seq::<Seq<char>>::empty());
        assert(path_texts(orig.take(0)) =~= Seq::<Seq<char>>::empty());
        assert(path_views(path_texts(out@)) =~= Seq::<PathView>::empty());
    }
    while rest.len() > 0
        invariant
            0 <= i <= orig.len(),
            rest@ == orig.skip(i),
            ft == (|p: FsPath| p@),
            fp == (|t: Seq<char>| parse_path(t)),
            strict_total(path_order()),
            path_texts(out@).to_multiset() == path_texts(orig.take(i)).to_multiset(),
            paths_sorted(path_views(path_texts(out@))),
            forall|k: PathView|
                #[trigger] path_texts(out@).filter(denoting(k)) == path_texts(orig.take(i)).filter(
                    denoting(k),
                ),
        decreases rest.len(),
    {
        assert(rest@[0] == orig[i]);
        let x = rest.remove(0);
        let ghost texts = path_texts(out@);
        let ghost views = path_views(texts);
        let mut j = out.len();
        while j > 0 && x.less_than(&out[j - 1])
            invariant
                j <= out.len(),
                texts == path_texts(out@),
                views == path_views(texts),
                forall|m: int| j <= m < out.len() ==> path_order()(parse_path(x@), #[trigger] views[m]),
            decreases j,
        {
            assert(views[j - 1] == parse_path(out@[j - 1]@));
            j = j - 1;
        }
        proof {
            if j > 0 {
                assert(views[j - 1] == parse_path(out@[j - 1]@));
            }
            lemma_insert_sorted(views, j as int, parse_path(x@), path_order());
            lemma_map_insert(out@, j as int, x, ft);
            lemma_map_insert(texts, j as int, x@, fp);
            assert(orig.take(i + 1) =~= orig.take(i).push(x));
            assert(rest@ =~= orig.skip(i + 1));
            lemma_map_push(orig.take(i), x, ft);
            assert forall|k: PathView|
                #[trigger] texts.insert(j as int, x@).filter(denoting(k)) == path_texts(
                    orig.take(i + 1),
                ).filter(denoting(k)) by {
                assert forall|m: int| j <= m < texts.len() implies path_lt(
                    parse_path(x@),
                    #[trigger] parse_path(texts[m]),
                ) by {
                    assert(views[m] == parse_path(texts[m]));
                }
                lemma_filter_denoting_insert(texts, j as int, x@, k);
                path_texts(orig.take(i)).lemma_filter_push(x@, denoting(k));
            }
        }
        out.insert(j, x);
        proof {
            i = i + 1;
        }
    }
    proof {
        assert(orig.take(i) =~= orig);
    }
    out
}

} // verus!
