//! Where template files may be looked for: joining a template's name to a template directory
//! must not lead out of that directory.
//!
//! Paths are POSIX paths held as strings. The current directory is read by the caller and handed
//! in; `None` stands for a current directory that could not be read.
use std::path::Path;

use sugar_path::SugarPath;
use vstd::prelude::*;

use crate::text::{Class, first_char, index_of, lemma_index_of};

verus! {

broadcast use vstd::string::group_string_axioms;

/// The names of the templates that were looked for, each with the reason it was not found.
#[derive(Clone, Debug, PartialEq, Eq)]
pub struct LoaderError {
    pub tried: Vec<(String, String)>,
}

/// The `/`-separated pieces of `p`, empty ones included.
pub open spec fn pieces(p: Seq<char>) -> Seq<Seq<char>>
    decreases p.len(),
{
    let k = index_of(p, Class::Char('/'));
    proof {
        lemma_index_of(p, Class::Char('/'));
    }
    if k < p.len() {
        seq![p.take(k)] + pieces(p.skip(k + 1))
    } else {
        seq![p]
    }
}

/// Whether a path starts at the current directory `.`.
pub open spec fn starts_at_cur_dir(p: Seq<char>) -> bool {
    p.len() > 0 && p[0] == '.' && (p.len() == 1 || p[1] == '/')
}

/// Which pieces between separators are components: the non-empty ones other than `.`.
pub open spec fn kept_piece() -> spec_fn(Seq<char>) -> bool {
    |c: Seq<char>| c.len() > 0 && c != seq!['.']
}

/// The components of a POSIX path, as `std::path::Path::components` documents them: the root
/// (written `/`) when the path starts with `/`, a `.` when the path starts with it, then the
/// pieces between separators, without empty pieces (repeated or trailing separators) and `.`.
pub open spec fn components(p: Seq<char>) -> Seq<Seq<char>> {
    let head: Seq<Seq<char>> = if p.len() > 0 && p[0] == '/' {
        seq![seq!['/']]
    } else if starts_at_cur_dir(p) {
        seq![seq!['.']]
    } else {
        Seq::empty()
    };
    head + pieces(p).filter(kept_piece())
}

/// `path` adjoined to `base`, as `std::path::Path::join` documents it: an absolute `path`
/// replaces `base`; otherwise a separator is put between them unless `base` is empty or already
/// ends with one.
pub open spec fn joined(base: Seq<char>, path: Seq<char>) -> Seq<char> {
    if path.len() > 0 && path[0] == '/' {
        path
    } else if base.len() == 0 || base.last() == '/' {
        base + path
    } else {
        base + seq!['/'] + path
    }
}

/// The parent component `..`.
pub open spec fn parent_dir() -> Seq<char> {
    seq!['.', '.']
}

/// One component more in normalizing: `.` is dropped; `..` removes the component before it,
/// is dropped right after the root, and is kept at the start or after another `..`.
pub open spec fn norm_step(acc: Seq<Seq<char>>, c: Seq<char>) -> Seq<Seq<char>> {
    if c == seq!['.'] {
        acc
    } else if c == parent_dir() {
        if acc.len() == 0 || acc.last() == parent_dir() {
            acc.push(c)
        } else if acc.last() == seq!['/'] {
            acc
        } else {
            acc.drop_last()
        }
    } else {
        acc.push(c)
    }
}

/// The components of a path once `.` and `..` are resolved.
pub open spec fn norm_components(cs: Seq<Seq<char>>) -> Seq<Seq<char>>
    decreases cs.len(),
{
    if cs.len() == 0 {
        Seq::empty()
    } else {
        norm_step(norm_components(cs.drop_last()), cs.last())
    }
}

/// Components written one after the other with a `/` between them.
pub open spec fn join_parts(es: Seq<Seq<char>>) -> Seq<char>
    decreases es.len(),
{
    if es.len() == 0 {
        Seq::empty()
    } else if es.len() == 1 {
        es[0]
    } else {
        es[0] + seq!['/'] + join_parts(es.skip(1))
    }
}

/// The path that a list of components makes: `.` when there is none, the root written as a
/// leading `/`.
pub open spec fn render(cs: Seq<Seq<char>>) -> Seq<char> {
    if cs.len() == 0 {
        seq!['.']
    } else if cs[0] == seq!['/'] {
        seq!['/'] + join_parts(cs.skip(1))
    } else {
        join_parts(cs)
    }
}

/// What `sugar_path` normalizes a POSIX path to: its components with `.` and `..` resolved,
/// written back with single separators.
pub open spec fn spec_normalize(path: Seq<char>) -> Seq<char> {
    render(norm_components(components(path)))
}

/// Calls `std::path::Path::join`, whose documented result on POSIX platforms is `joined`.
#[verifier::external_body]
fn join(base: &str, path: &str) -> (r: String)
    ensures
        r@ == joined(base@, path@),
{
    Path::new(base).join(path).to_string_lossy().into_owned()
}

/// Calls `sugar_path::SugarPath::normalize`, which on a POSIX platform takes the path's
/// components, drops `.`, lets `..` remove the component before it (dropping it after the root
/// and keeping it at the start or after another `..`), and collects the rest into a path, `.`
/// when nothing is left.
#[verifier::external_body]
fn normalize(path: &str) -> (r: String)
    ensures
        r@ == spec_normalize(path@),
{
    Path::new(path).normalize().to_string_lossy().into_owned()
}

/// Calls `std::path::Path::starts_with`, which by its documentation tells whether the components
/// of `base` begin the components of `path` (components as a POSIX platform splits them).
#[verifier::external_body]
fn starts_with(path: &str, base: &str) -> (r: bool)
    ensures
        r == components(base@).is_prefix_of(components(path@)),
{
    Path::new(path).starts_with(Path::new(base))
}

/// The absolute, normalized form of `path` when the current directory is `cwd`: the empty path
/// is the current directory itself; a relative path is taken from the current directory, and
/// has no absolute form when that could not be read.
pub open spec fn spec_abspath(path: Seq<char>, cwd: Option<Seq<char>>) -> Option<Seq<char>> {
    if path.len() == 0 {
        cwd
    } else if path[0] == '/' {
        Some(spec_normalize(path))
    } else {
        match cwd {
            Some(c) => Some(spec_normalize(joined(c, path))),
            None => None,
        }
    }
}

/// The view of an optional string.
pub open spec fn opt_view(s: Option<String>) -> Option<Seq<char>> {
    match s {
        Some(s) => Some(s@),
        None => None,
    }
}

/// The view of an optional string slice.
pub open spec fn opt_str_view(s: Option<&str>) -> Option<Seq<char>> {
    match s {
        Some(s) => Some(s@),
        None => None,
    }
}

/// The absolute, normalized form of `path`, with `cwd` the current directory.
pub fn abspath(path: &str, cwd: Option<&str>) -> (r: Option<String>)
    ensures
        opt_view(r) == spec_abspath(path@, opt_str_view(cwd)),
{
    match first_char(path) {
        None => match cwd {
            Some(c) => Some(c.to_string()),
            None => None,
        },
        Some(c) => {
            if c == '/' {
                Some(normalize(path))
            } else {
                match cwd {
                    Some(cwd) => {
                        let absolute = join(cwd, path);
                        Some(normalize(absolute.as_str()))
                    },
                    None => None,
                }
            }
        },
    }
}

/// Where `template_name` lies inside `directory`, when it does.
pub open spec fn spec_safe_join(directory: Seq<char>, template_name: Seq<char>, cwd: Option<Seq<char>>) -> Option<
    Seq<char>,
> {
    match (spec_abspath(joined(directory, template_name), cwd), spec_abspath(directory, cwd)) {
        (Some(path), Some(dir)) => if components(dir).is_prefix_of(components(path)) {
            Some(path)
        } else {
            None
        },
        _ => None,
    }
}

/// The absolute path of the template `template_name` in `directory`, or `None` when that path
/// leads out of the directory (or an absolute form cannot be had).
pub fn safe_join(directory: &str, template_name: &str, cwd: Option<&str>) -> (r: Option<String>)
    ensures
        opt_view(r) == spec_safe_join(directory@, template_name@, opt_str_view(cwd)),
{
    let joined_path = join(directory, template_name);
    let final_path = match abspath(joined_path.as_str(), cwd) {
        Some(path) => path,
        None => return None,
    };
    let directory = match abspath(directory, cwd) {
        Some(directory) => directory,
        None => return None,
    };
    path_within(final_path, directory.as_str())
}

/// `path` when its components begin with those of `directory`, `None` otherwise.
pub fn path_within(path: String, directory: &str) -> (r: Option<String>)
    ensures
        opt_view(r) == if components(directory@).is_prefix_of(components(path@)) {
            Some(path@)
        } else {
            None
        },
{
    if starts_with(path.as_str(), directory) {
        Some(path)
    } else {
        None
    }
}

/// Whether `s` holds no separator.
pub open spec fn no_sep(s: Seq<char>) -> bool {
    forall|i: int| 0 <= i < s.len() ==> s[i] != '/'
}

/// Whether no component of `p` is `..`.
pub open spec fn no_parent(p: Seq<char>) -> bool {
    !components(p).contains(parent_dir())
}

/// Whether a current directory is absolute and free of `..`, as the process's current directory is.
pub open spec fn plain_cwd(cwd: Option<Seq<char>>) -> bool {
    cwd matches Some(c) ==> c.len() > 0 && c[0] == '/' && no_parent(c)
}

/// Components as normalizing leaves them: the root only first, every other one non-empty,
/// without separator and not `.`; after a root there is no `..`.
spec fn norm_ok(nc: Seq<Seq<char>>) -> bool {
    &&& forall|i: int|
        0 <= i < nc.len() ==> (i == 0 && #[trigger] nc[i] == seq!['/']) || (nc[i].len() > 0
            && nc[i] != seq!['.'] && no_sep(nc[i]))
    &&& nc.len() > 0 && nc[0] == seq!['/'] ==> forall|i: int|
        0 <= i < nc.len() ==> #[trigger] nc[i] != parent_dir()
}

/// Components as `components` gives them: the root only first, every other one non-empty and
/// without separator.
spec fn comps_ok(cs: Seq<Seq<char>>) -> bool {
    forall|i: int|
        0 <= i < cs.len() ==> (i == 0 && #[trigger] cs[i] == seq!['/']) || (cs[i].len() > 0
            && no_sep(cs[i]))
}

proof fn lemma_pieces_single(x: Seq<char>)
    requires
        no_sep(x),
    ensures
        pieces(x) == seq![x],
{
    lemma_index_of(x, Class::Char('/'));
    crate::text::lemma_index_of_unique(x, Class::Char('/'), x.len() as int);
}

proof fn lemma_pieces_cons(x: Seq<char>, y: Seq<char>)
    requires
        no_sep(x),
    ensures
        pieces(x + seq!['/'] + y) == seq![x] + pieces(y),
{
    let p = x + seq!['/'] + y;
    assert(p[x.len() as int] == '/');
    assert forall|j: int| 0 <= j < x.len() implies !crate::text::holds(Class::Char('/'), #[trigger] p[j]) by {
        assert(p[j] == x[j]);
    }
    crate::text::lemma_index_of_unique(p, Class::Char('/'), x.len() as int);
    assert(p.take(x.len() as int) =~= x);
    assert(p.skip(x.len() as int + 1) =~= y);
}

proof fn lemma_pieces_join(es: Seq<Seq<char>>)
    requires
        es.len() > 0,
        forall|i: int| 0 <= i < es.len() ==> no_sep(#[trigger] es[i]),
    ensures
        pieces(join_parts(es)) == es,
    decreases es.len(),
{
    if es.len() == 1 {
        lemma_pieces_single(es[0]);
        assert(seq![es[0]] =~= es);
    } else {
        let rest = es.skip(1);
        assert forall|i: int| 0 <= i < rest.len() implies no_sep(#[trigger] rest[i]) by {
            assert(rest[i] == es[i + 1]);
        }
        lemma_pieces_join(rest);
        lemma_pieces_cons(es[0], join_parts(rest));
        assert(seq![es[0]] + rest =~= es);
    }
}

proof fn lemma_pieces_no_sep(p: Seq<char>)
    ensures
        forall|i: int| 0 <= i < pieces(p).len() ==> no_sep(#[trigger] pieces(p)[i]),
    decreases p.len(),
{
    let k = index_of(p, Class::Char('/'));
    lemma_index_of(p, Class::Char('/'));
    if k < p.len() {
        lemma_pieces_no_sep(p.skip(k + 1));
        let ps = pieces(p);
        assert(ps == seq![p.take(k)] + pieces(p.skip(k + 1)));
        assert forall|i: int| 0 <= i < ps.len() implies no_sep(#[trigger] ps[i]) by {
            if i > 0 {
                assert(ps[i] == pieces(p.skip(k + 1))[i - 1]);
            } else {
                assert forall|j: int| 0 <= j < ps[0].len() implies ps[0][j] != '/' by {
                    assert(ps[0][j] == p[j]);
                }
            }
        }
    }
}

proof fn lemma_filter_all(s: Seq<Seq<char>>, pred: spec_fn(Seq<char>) -> bool)
    requires
        forall|i: int| 0 <= i < s.len() ==> pred(#[trigger] s[i]),
    ensures
        s.filter(pred) == s,
    decreases s.len(),
{
    reveal(Seq::filter);
    if s.len() > 0 {
        lemma_filter_all(s.drop_last(), pred);
        assert(s.drop_last().push(s.last()) =~= s);
    }
}

proof fn lemma_components_ok(p: Seq<char>)
    ensures
        comps_ok(components(p)),
        p.len() > 0 && p[0] == '/' ==> components(p).len() > 0 && components(p)[0] == seq!['/'],
{
    broadcast use vstd::seq_lib::group_filter_ensures;
    let ps = pieces(p);
    lemma_pieces_no_sep(p);
    let f = ps.filter(kept_piece());
    let cs = components(p);
    let head: Seq<Seq<char>> = if p.len() > 0 && p[0] == '/' {
        seq![seq!['/']]
    } else if starts_at_cur_dir(p) {
        seq![seq!['.']]
    } else {
        Seq::empty()
    };
    assert(cs == head + f);
    assert forall|i: int| 0 <= i < cs.len() implies (i == 0 && #[trigger] cs[i] == seq!['/']) || (
    cs[i].len() > 0 && no_sep(cs[i])) by {
        if i >= head.len() {
            let e = f[i - head.len()];
            assert(cs[i] == e);
            assert(kept_piece()(e));
            ps.lemma_filter_contains_rev(kept_piece(), e);
            let k = choose|k: int| 0 <= k < ps.len() && ps[k] == e;
            assert(no_sep(ps[k]));
        } else if !(p.len() > 0 && p[0] == '/') {
            assert(cs[i] == seq!['.']);
            assert(no_sep(seq!['.']));
        }
    }
}

proof fn lemma_norm_ok(cs: Seq<Seq<char>>)
    requires
        comps_ok(cs),
    ensures
        norm_ok(norm_components(cs)),
        cs.len() > 0 && cs[0] == seq!['/'] ==> norm_components(cs).len() > 0 && norm_components(
            cs,
        )[0] == seq!['/'],
    decreases cs.len(),
{
    if cs.len() > 0 {
        let prev = cs.drop_last();
        assert forall|i: int| 0 <= i < prev.len() implies (i == 0 && #[trigger] prev[i] == seq!['/'])
            || (prev[i].len() > 0 && no_sep(prev[i])) by {
            assert(prev[i] == cs[i]);
        }
        lemma_norm_ok(prev);
        let acc = norm_components(prev);
        let c = cs.last();
        let nc = norm_components(cs);
        assert(nc == norm_step(acc, c));
        assert(cs[cs.len() - 1] == c);
        if prev.len() > 0 && cs[0] == seq!['/'] {
            assert(prev[0] == seq!['/']);
        }
        if c == seq!['/'] {
            assert(!no_sep(c)) by {
                assert(c[0] == '/');
            }
            assert(cs.len() == 1);
            assert(acc =~= Seq::<Seq<char>>::empty());
            assert(nc =~= seq![c]);
        } else if c == seq!['.'] {
        } else if c == parent_dir() {
            if acc.len() == 0 || acc.last() == parent_dir() {
                assert(nc == acc.push(c));
                assert(no_sep(c));
                if acc.len() > 0 {
                    assert(acc[acc.len() - 1] == parent_dir());
                }
            } else if acc.last() == seq!['/'] {
            } else {
                assert(nc == acc.drop_last());
                if acc[0] == seq!['/'] {
                    assert(acc.len() > 1);
                }
                assert forall|i: int| 0 <= i < nc.len() implies nc[i] == acc[i] by {}
            }
        } else {
            assert(nc == acc.push(c));
            assert(c.len() > 0 && no_sep(c));
            assert forall|i: int| 0 <= i < nc.len() - 1 implies nc[i] == acc[i] by {}
        }
    }
}

proof fn lemma_filter_empty_piece()
    ensures
        seq![Seq::<char>::empty()].filter(kept_piece()) == Seq::<Seq<char>>::empty(),
{
    reveal_with_fuel(Seq::filter, 2);
    let e: Seq<Seq<char>> = seq![Seq::<char>::empty()];
    assert(e.drop_last() =~= Seq::<Seq<char>>::empty());
    assert(!kept_piece()(e.last()));
}

proof fn lemma_components_rooted(r: Seq<char>)
    requires
        r.len() > 0,
        r[0] == '/',
    ensures
        components(r) == seq![seq!['/']] + pieces(r).filter(kept_piece()),
{
}

proof fn lemma_rooted_pieces(rest: Seq<Seq<char>>)
    requires
        forall|i: int| 0 <= i < rest.len() ==> no_sep(#[trigger] rest[i]) && kept_piece()(rest[i]),
    ensures
        pieces(seq!['/'] + join_parts(rest)).filter(kept_piece()) == rest,
{
    let j = join_parts(rest);
    let r = seq!['/'] + j;
    assert(r =~= Seq::<char>::empty() + seq!['/'] + j);
    lemma_pieces_cons(Seq::<char>::empty(), j);
    let e: Seq<Seq<char>> = seq![Seq::<char>::empty()];
    assert(pieces(r) == e + pieces(j));
    lemma_filter_empty_piece();
    if rest.len() == 0 {
        assert(j =~= Seq::<char>::empty());
        lemma_index_of(j, Class::Char('/'));
        assert(pieces(j) == e);
        Seq::filter_distributes_over_add(e, e, kept_piece());
        assert(pieces(r).filter(kept_piece()) =~= rest);
    } else {
        lemma_pieces_join(rest);
        lemma_filter_all(rest, kept_piece());
        Seq::filter_distributes_over_add(e, rest, kept_piece());
        assert(pieces(r).filter(kept_piece()) =~= rest);
    }
}

/// A normalized rooted path reads back as the same components.
proof fn lemma_render_components(nc: Seq<Seq<char>>)
    requires
        norm_ok(nc),
        nc.len() > 0,
        nc[0] == seq!['/'],
    ensures
        components(render(nc)) == nc,
{
    let rest = nc.skip(1);
    assert forall|i: int| 0 <= i < rest.len() implies no_sep(#[trigger] rest[i]) && kept_piece()(
        rest[i],
    ) by {
        assert(rest[i] == nc[i + 1]);
    }
    lemma_rooted_pieces(rest);
    let r = render(nc);
    assert(r == seq!['/'] + join_parts(rest));
    lemma_components_rooted(r);
    assert(nc =~= seq![seq!['/']] + rest);
}

/// The components of a rooted path written from plain names are the root and those names.
pub proof fn lemma_components_of_rooted(es: Seq<Seq<char>>)
    requires
        forall|i: int| 0 <= i < es.len() ==> no_sep(#[trigger] es[i]) && kept_piece()(es[i]),
    ensures
        components(seq!['/'] + join_parts(es)) == seq![seq!['/']] + es,
{
    lemma_rooted_pieces(es);
    lemma_components_rooted(seq!['/'] + join_parts(es));
}

/// With a plain current directory, the absolute form of a path is a rooted path with no `..`.
pub proof fn lemma_abspath_plain(path: Seq<char>, cwd: Option<Seq<char>>)
    requires
        plain_cwd(cwd),
    ensures
        spec_abspath(path, cwd) matches Some(p) ==> p.len() > 0 && p[0] == '/' && no_parent(p),
{
    let x = if path.len() > 0 && path[0] == '/' {
        path
    } else {
        match cwd {
            Some(c) => joined(c, path),
            None => path,
        }
    };
    if path.len() > 0 && (path[0] == '/' || cwd is Some) {
        assert(x.len() > 0 && x[0] == '/');
        lemma_components_ok(x);
        lemma_norm_ok(components(x));
        let nc = norm_components(components(x));
        lemma_render_components(nc);
        assert(spec_normalize(x) == render(nc));
        assert(render(nc)[0] == '/');
    }
}

/// A template path that `safe_join` gives lies inside the directory: the components of the
/// directory's absolute path begin those of the template's path, and when the current directory
/// is plain, that path is rooted and has no `..` that could lead back out.
pub proof fn lemma_safe_join_inside(directory: Seq<char>, template_name: Seq<char>, cwd: Option<Seq<char>>)
    ensures
        spec_safe_join(directory, template_name, cwd) matches Some(path) ==> {
            &&& spec_abspath(directory, cwd) is Some
            &&& components(spec_abspath(directory, cwd)->0).is_prefix_of(components(path))
            &&& spec_abspath(joined(directory, template_name), cwd) == Some(path)
            &&& plain_cwd(cwd) ==> path.len() > 0 && path[0] == '/' && no_parent(path)
        },
{
    if plain_cwd(cwd) {
        lemma_abspath_plain(joined(directory, template_name), cwd);
    }
}

/// Writing one component more after others puts a separator before it.
proof fn lemma_join_parts_push(es: Seq<Seq<char>>, x: Seq<char>)
    requires
        es.len() > 0,
    ensures
        join_parts(es.push(x)) == join_parts(es) + seq!['/'] + x,
    decreases es.len(),
{
    let ex = es.push(x);
    assert(ex[0] == es[0]);
    if es.len() == 1 {
        assert(ex.skip(1) =~= seq![x]);
        assert(join_parts(seq![x]) == x);
    } else {
        lemma_join_parts_push(es.skip(1), x);
        assert(ex.skip(1) =~= es.skip(1).push(x));
        assert(es[0] + seq!['/'] + (join_parts(es.skip(1)) + seq!['/'] + x) =~= (es[0] + seq!['/']
            + join_parts(es.skip(1))) + seq!['/'] + x);
    }
}

/// Names without `.` or `..` after the root are left as they are by normalizing.
proof fn lemma_norm_plain(es: Seq<Seq<char>>)
    requires
        forall|i: int| 0 <= i < es.len() ==> kept_piece()(#[trigger] es[i]) && es[i] != parent_dir(),
    ensures
        norm_components(seq![seq!['/']] + es) == seq![seq!['/']] + es,
    decreases es.len(),
{
    let cs = seq![seq!['/']] + es;
    if es.len() == 0 {
        assert(cs.drop_last() =~= Seq::<Seq<char>>::empty());
        assert(seq!['/'] != seq!['.']) by {
            assert(seq!['/'][0] != seq!['.'][0]);
        }
        assert(seq!['/'] != parent_dir()) by {
            assert(seq!['/'].len() != parent_dir().len());
        }
        assert(Seq::<Seq<char>>::empty().push(seq!['/']) =~= cs);
        assert(norm_components(cs.drop_last()) == Seq::<Seq<char>>::empty());
        assert(norm_components(cs) == norm_step(Seq::<Seq<char>>::empty(), seq!['/']));
        assert(norm_components(cs) == cs);
    } else {
        let front = es.drop_last();
        assert forall|i: int| 0 <= i < front.len() implies kept_piece()(#[trigger] front[i])
            && front[i] != parent_dir() by {
            assert(front[i] == es[i]);
        }
        lemma_norm_plain(front);
        let c = es[es.len() - 1];
        assert(kept_piece()(c) && c != parent_dir());
        assert(cs.drop_last() =~= seq![seq!['/']] + front);
        assert(cs.last() == c);
        assert(norm_step(seq![seq!['/']] + front, c) == (seq![seq!['/']] + front).push(c));
        assert((seq![seq!['/']] + front).push(c) =~= cs);
        assert(norm_components(cs) == norm_step(norm_components(cs.drop_last()), cs.last()));
        assert(norm_components(cs) == cs);
    }
}

/// A template name that goes up out of the directory with `..` and into a name other than the
/// directory's own is refused: `safe_join` gives no path for it.
pub proof fn lemma_safe_join_refuses_parent(es: Seq<Seq<char>>, name: Seq<char>, cwd: Option<Seq<char>>)
    requires
        es.len() > 0,
        forall|i: int|
            0 <= i < es.len() ==> no_sep(#[trigger] es[i]) && kept_piece()(es[i]) && es[i]
                != parent_dir(),
        no_sep(name),
        kept_piece()(name),
        name != parent_dir(),
        name != es.last(),
    ensures
        spec_safe_join(seq!['/'] + join_parts(es), parent_dir() + seq!['/'] + name, cwd) is None,
{
    let root: Seq<Seq<char>> = seq![seq!['/']];
    let d = seq!['/'] + join_parts(es);
    let t = parent_dir() + seq!['/'] + name;
    // the directory is already normal
    lemma_components_of_rooted(es);
    lemma_norm_plain(es);
    assert((root + es).skip(1) =~= es);
    assert(spec_normalize(d) == d);
    // the joined path: one more `..` and the name
    let es2 = es.push(parent_dir()).push(name);
    lemma_join_parts_push(es, parent_dir());
    lemma_join_parts_push(es.push(parent_dir()), name);
    let last = es.last();
    if es.len() == 1 {
        assert(join_parts(es) == es[0]);
    } else {
        lemma_join_parts_push(es.drop_last(), last);
        assert(es.drop_last().push(last) =~= es);
    }
    assert(d.last() == last.last());
    assert(last.last() != '/');
    assert(joined(d, t) =~= seq!['/'] + join_parts(es2));
    assert forall|i: int| 0 <= i < es2.len() implies no_sep(#[trigger] es2[i]) && kept_piece()(
        es2[i],
    ) by {
        if i < es.len() {
            assert(es2[i] == es[i]);
        }
    }
    lemma_components_of_rooted(es2);
    let cs = root + es2;
    assert(cs.drop_last() =~= root + es.push(parent_dir()));
    assert((root + es.push(parent_dir())).drop_last() =~= root + es);
    let kept = es.drop_last().push(name);
    assert((root + es).drop_last() =~= root + es.drop_last());
    let c = es[es.len() - 1];
    assert(no_sep(c) && kept_piece()(c) && c != parent_dir());
    assert(c != seq!['/']) by {
        if c == seq!['/'] {
            assert(c[0] == '/');
        }
    }
    assert(norm_components(root + es.push(parent_dir())) == norm_step(root + es, parent_dir()));
    assert((root + es).last() == c);
    assert(norm_step(root + es, parent_dir()) == root + es.drop_last());
    assert(name != seq!['.']);
    assert(norm_components(cs) == norm_step(root + es.drop_last(), name));
    assert((root + es.drop_last()).push(name) =~= root + kept);
    assert(norm_components(cs) == root + kept);
    assert forall|i: int| 0 <= i < kept.len() implies no_sep(#[trigger] kept[i]) && kept_piece()(
        kept[i],
    ) by {
        if i < es.len() - 1 {
            assert(kept[i] == es[i]);
        }
    }
    lemma_components_of_rooted(kept);
    assert((root + kept).skip(1) =~= kept);
    assert(components(spec_normalize(joined(d, t))) == root + kept);
    assert((root + kept)[es.len() as int] != (root + es)[es.len() as int]);
}

} // verus!
