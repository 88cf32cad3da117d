//! Paths as lists of components: joining them, and giving them names that every system accepts.

use crate::component::{
    can_sanitize, is_accepted_name, is_component_sound, law_accepted_name_stays,
    law_sanitized_name_is_accepted, law_sanitizing_name_is_idempotent, sanitize_component,
    sanitized_component,
};
use crate::text::{copy_of, same_text};
use vstd::prelude::*;

verus! {

/// One component of a path.
#[derive(Debug, PartialEq, Eq)]
pub enum PathComponent {
    /// A prefix as on Windows, such as a drive; in a path with a verbatim prefix, `.` and `..`
    /// have no meaning.
    Prefix { text: String, verbatim: bool },
    RootDir,
    CurDir,
    ParentDir,
    Normal(String),
}

/// What a component holds.
#[verifier::ext_equal]
pub enum PartView {
    Prefix { text: Seq<char>, verbatim: bool },
    RootDir,
    CurDir,
    ParentDir,
    Normal(Seq<char>),
}

impl View for PathComponent {
    type V = PartView;

    open spec fn view(&self) -> PartView {
        match *self {
            PathComponent::Prefix { text, verbatim } => PartView::Prefix { text: text@, verbatim },
            PathComponent::RootDir => PartView::RootDir,
            PathComponent::CurDir => PartView::CurDir,
            PathComponent::ParentDir => PartView::ParentDir,
            PathComponent::Normal(name) => PartView::Normal(name@),
        }
    }
}

/// What the components of a path hold.
pub open spec fn path_view(p: Seq<PathComponent>) -> Seq<PartView> {
    Seq::new(p.len(), |i: int| p[i]@)
}

/// The path of one name that is neither `.` nor `..`.
pub open spec fn single(name: Seq<char>) -> Seq<PartView> {
    seq![PartView::Normal(name)]
}

/// The path that a name alone is read as: `.` and `..` have a meaning of their own.
pub open spec fn path_named(name: Seq<char>) -> Seq<PartView> {
    if name == "."@ {
        seq![PartView::CurDir]
    } else if name == ".."@ {
        seq![PartView::ParentDir]
    } else {
        single(name)
    }
}

/// A component with a name that every system accepts.
pub open spec fn sanitized_part(part: PartView) -> PartView {
    match part {
        PartView::Normal(name) => PartView::Normal(sanitized_component(name)),
        other => other,
    }
}

/// The components of a path, each with a name that every system accepts.
pub open spec fn sanitized_parts(p: Seq<PartView>) -> Seq<PartView> {
    Seq::new(p.len(), |i: int| sanitized_part(p[i]))
}

/// A path with names that every system accepts; below a verbatim prefix, `.` and `..` are worked
/// out.
pub open spec fn sanitized_path(p: Seq<PartView>) -> Seq<PartView> {
    if is_verbatim(p) {
        walked(p.take(1), sanitized_parts(p.skip(1)))
    } else {
        sanitized_parts(p)
    }
}

/// Whether a component can be sanitized.
pub open spec fn part_can_sanitize(part: PartView) -> bool {
    match part {
        PartView::Normal(name) => can_sanitize(name),
        _ => true,
    }
}

/// Whether every component of a path can be sanitized.
pub open spec fn path_can_sanitize(p: Seq<PartView>) -> bool {
    forall|i: int| 0 <= i < p.len() ==> part_can_sanitize(#[trigger] p[i])
}

/// Whether a path has a verbatim prefix.
pub open spec fn is_verbatim(p: Seq<PartView>) -> bool {
    p.len() > 0 && match p[0] {
        PartView::Prefix { verbatim, .. } => verbatim,
        _ => false,
    }
}

/// The prefix of a path, where it has one.
pub open spec fn prefix_of(p: Seq<PartView>) -> Seq<PartView> {
    if p.len() > 0 && p[0] is Prefix {
        p.take(1)
    } else {
        Seq::empty()
    }
}

/// Whether a path can be followed by `.`: it is empty, or a prefix alone.
pub open spec fn takes_cur_dir(p: Seq<PartView>) -> bool {
    p.len() == 0 || (p.len() == 1 && p[0] is Prefix)
}

/// Whether a path starts from the place it is joined to.
pub open spec fn is_relative(p: Seq<PartView>) -> bool {
    p.len() > 0 ==> !(p[0] is Prefix) && !(p[0] is RootDir)
}

/// The component `part` taken from the place `a`, which has a verbatim prefix.
pub open spec fn stepped(a: Seq<PartView>, part: PartView) -> Seq<PartView> {
    match part {
        PartView::RootDir => if a.len() > 0 {
            a.take(1).push(part)
        } else {
            a.push(part)
        },
        PartView::CurDir => a,
        PartView::ParentDir => if a.len() > 0 && a.last() is Normal {
            a.drop_last()
        } else {
            a
        },
        _ => a.push(part),
    }
}

/// The components of `b` taken one after another from the place `a`.
pub open spec fn walked(a: Seq<PartView>, b: Seq<PartView>) -> Seq<PartView>
    decreases b.len(),
{
    if b.len() == 0 {
        a
    } else {
        stepped(walked(a, b.drop_last()), b.last())
    }
}

/// The path `b` as it is meant at the place `a`: a path with a prefix stands for itself, one
/// with a root keeps the prefix of `a`, and any other goes on from `a`.
pub open spec fn joined(a: Seq<PartView>, b: Seq<PartView>) -> Seq<PartView> {
    if b.len() == 0 {
        a
    } else if b[0] is Prefix {
        b
    } else if is_verbatim(a) {
        walked(a, b)
    } else if b[0] is RootDir {
        prefix_of(a) + b
    } else if b[0] is CurDir && !takes_cur_dir(a) {
        a + b.skip(1)
    } else {
        a + b
    }
}

impl Clone for PathComponent {
    fn clone(&self) -> (r: Self)
        ensures
            r@ == self@,
    {
        match self {
            PathComponent::Prefix { text, verbatim } => PathComponent::Prefix {
                text: copy_of(text.as_str()),
                verbatim: *verbatim,
            },
            PathComponent::RootDir => PathComponent::RootDir,
            PathComponent::CurDir => PathComponent::CurDir,
            PathComponent::ParentDir => PathComponent::ParentDir,
            PathComponent::Normal(name) => PathComponent::Normal(copy_of(name.as_str())),
        }
    }
}

/// Adds the components of `b` from `from` on behind those of `out`.
fn push_from(out: &mut Vec<PathComponent>, b: &Vec<PathComponent>, from: usize)
    requires
        from <= b.len(),
    ensures
        path_view(final(out)@) == path_view(old(out)@) + path_view(b@).skip(from as int),
{
    let ghost before = out@;
    let mut i: usize = from;
    while i < b.len()
        invariant
            from <= i <= b.len(),
            path_view(out@) == path_view(before) + path_view(b@).subrange(from as int, i as int),
        decreases b.len() - i,
    {
        let ghost so_far = out@;
        out.push(b[i].clone());
        assert(path_view(out@) =~= path_view(so_far).push(path_view(b@)[i as int]));
        i = i + 1;
    }
    assert(path_view(b@).subrange(from as int, i as int) =~= path_view(b@).skip(from as int));
}

/// A path that holds the same.
pub fn copy_path(p: &Vec<PathComponent>) -> (r: Vec<PathComponent>)
    ensures
        path_view(r@) == path_view(p@),
{
    let mut out: Vec<PathComponent> = Vec::new();
    push_from(&mut out, p, 0);
    assert(path_view(out@) =~= path_view(p@));
    out
}

/// The path that a name alone is read as.
pub fn path_of(name: &str) -> (r: Vec<PathComponent>)
    ensures
        path_view(r@) == path_named(name@),
        name@.len() > 2 ==> path_view(r@) == single(name@),
{
    proof {
        reveal_strlit(".");
        reveal_strlit("..");
    }
    let mut out: Vec<PathComponent> = Vec::new();
    if same_text(name, ".") {
        out.push(PathComponent::CurDir);
    } else if same_text(name, "..") {
        out.push(PathComponent::ParentDir);
    } else {
        out.push(PathComponent::Normal(copy_of(name)));
    }
    assert(path_view(out@) =~= path_named(name@));
    out
}

/// Takes the component `c` from the place `out`, which has a verbatim prefix.
fn step(out: &mut Vec<PathComponent>, c: &PathComponent)
    ensures
        path_view(final(out)@) == stepped(path_view(old(out)@), c@),
{
    let ghost before = path_view(out@);
    match c {
        PathComponent::RootDir => {
            out.truncate(1);
            let ghost kept = path_view(out@);
            assert(kept =~= if before.len() > 0 {
                before.take(1)
            } else {
                before
            });
            out.push(PathComponent::RootDir);
            assert(path_view(out@) =~= kept.push(PartView::RootDir));
        },
        PathComponent::CurDir => {},
        PathComponent::ParentDir => {
            let drops = out.len() > 0 && matches!(out[out.len() - 1], PathComponent::Normal(_));
            if drops {
                out.pop();
                assert(path_view(out@) =~= before.drop_last());
            }
        },
        other => {
            out.push(other.clone());
            assert(path_view(out@) =~= before.push(c@));
        },
    }
}

/// The path `b` as it is meant at the place `a`.
pub fn join(a: &Vec<PathComponent>, b: &Vec<PathComponent>) -> (r: Vec<PathComponent>)
    ensures
        path_view(r@) == joined(path_view(a@), path_view(b@)),
{
    if b.len() == 0 {
        return copy_path(a);
    }
    assert(path_view(b@)[0] == b@[0]@);
    if let PathComponent::Prefix { .. } = &b[0] {
        return copy_path(b);
    }
    let mut verbatim_place = false;
    let mut prefixed = false;
    if a.len() > 0 {
        assert(path_view(a@)[0] == a@[0]@);
        if let PathComponent::Prefix { text: _, verbatim } = &a[0] {
            verbatim_place = *verbatim;
            prefixed = true;
        }
    }
    if verbatim_place {
        let mut out = copy_path(a);
        let mut i: usize = 0;
        assert(path_view(b@).take(0) =~= Seq::<PartView>::empty());
        while i < b.len()
            invariant
                i <= b.len(),
                path_view(out@) == walked(path_view(a@), path_view(b@).take(i as int)),
            decreases b.len() - i,
        {
            assert(path_view(b@).take(i + 1).drop_last() =~= path_view(b@).take(i as int));
            assert(path_view(b@).take(i + 1).last() == b@[i as int]@);
            step(&mut out, &b[i]);
            i = i + 1;
        }
        assert(path_view(b@).take(i as int) =~= path_view(b@));
        return out;
    }
    if let PathComponent::RootDir = &b[0] {
        let mut out: Vec<PathComponent> = Vec::new();
        if prefixed {
            out.push(a[0].clone());
            assert(path_view(out@) =~= path_view(a@).take(1));
        }
        assert(path_view(out@) =~= prefix_of(path_view(a@)));
        push_from(&mut out, b, 0);
        assert(path_view(out@) =~= prefix_of(path_view(a@)) + path_view(b@));
        return out;
    }
    let skips_cur_dir = matches!(&b[0], PathComponent::CurDir) && a.len() > 0 && !(a.len() == 1
        && prefixed);
    let mut out = copy_path(a);
    if skips_cur_dir {
        push_from(&mut out, b, 1);
    } else {
        push_from(&mut out, b, 0);
        assert(path_view(b@).skip(0) =~= path_view(b@));
    }
    out
}

/// Whether every component of a path can be sanitized.
pub fn is_path_sound(p: &Vec<PathComponent>) -> (r: bool)
    ensures
        r == path_can_sanitize(path_view(p@)),
{
    let mut i: usize = 0;
    while i < p.len()
        invariant
            i <= p.len(),
            forall|k: int| 0 <= k < i ==> part_can_sanitize(#[trigger] path_view(p@)[k]),
        decreases p.len() - i,
    {
        assert(path_view(p@)[i as int] == p@[i as int]@);
        if let PathComponent::Normal(name) = &p[i] {
            if !is_component_sound(name.as_str()) {
                return false;
            }
        }
        i = i + 1;
    }
    true
}

/// The component with a name that every system accepts.
fn sanitize_part(c: &PathComponent) -> (r: PathComponent)
    requires
        part_can_sanitize(c@),
    ensures
        r@ == sanitized_part(c@),
{
    match c {
        PathComponent::Normal(name) => PathComponent::Normal(sanitize_component(name.as_str())),
        other => other.clone(),
    }
}

/// The path with names that every system accepts. Prefix, root, `.` and `..` stay, but below a
/// verbatim prefix `.` and `..` are worked out.
pub fn sanitize_path(p: &Vec<PathComponent>) -> (r: Vec<PathComponent>)
    requires
        path_can_sanitize(path_view(p@)),
    ensures
        path_view(r@) == sanitized_path(path_view(p@)),
{
    let ghost whole = path_view(p@);
    let mut out: Vec<PathComponent> = Vec::new();
    if p.len() == 0 {
        assert(path_view(out@) =~= sanitized_path(whole));
        return out;
    }
    assert(whole[0] == p@[0]@);
    let verbatim_place = match &p[0] {
        PathComponent::Prefix { text: _, verbatim } => *verbatim,
        _ => false,
    };
    out.push(sanitize_part(&p[0]));
    let ghost rest = sanitized_parts(whole.skip(1));
    let mut i: usize = 1;
    assert(path_view(out@) =~= sanitized_parts(whole).take(1));
    proof {
        if verbatim_place {
            assert(path_view(out@) =~= whole.take(1));
            assert(rest.take(0) =~= Seq::<PartView>::empty());
        }
    }
    while i < p.len()
        invariant
            1 <= i <= p.len(),
            whole == path_view(p@),
            rest == sanitized_parts(whole.skip(1)),
            path_can_sanitize(whole),
            verbatim_place ==> path_view(out@) == walked(whole.take(1), rest.take(i - 1)),
            !verbatim_place ==> path_view(out@) == sanitized_parts(whole).take(i as int),
        decreases p.len() - i,
    {
        let ghost before = path_view(out@);
        assert(whole[i as int] == p@[i as int]@);
        let part = sanitize_part(&p[i]);
        assert(rest[i - 1] == part@);
        if verbatim_place {
            step(&mut out, &part);
            assert(rest.take(i as int).drop_last() =~= rest.take(i - 1));
            assert(rest.take(i as int).last() == part@);
        } else {
            out.push(part);
            assert(path_view(out@) =~= before.push(part@));
            assert(path_view(out@) =~= sanitized_parts(whole).take(i + 1));
        }
        i = i + 1;
    }
    assert(rest.take(i - 1) =~= rest);
    assert(sanitized_parts(whole).take(i as int) =~= sanitized_parts(whole));
    out
}

/// Whether nothing in a path behind its first component has to be worked out.
pub open spec fn is_worked_out(p: Seq<PartView>) -> bool {
    forall|i: int|
        1 <= i < p.len() ==> match #[trigger] p[i] {
            PartView::RootDir => i == 1,
            PartView::CurDir => false,
            PartView::ParentDir => false,
            _ => true,
        }
}

/// What is walked from a place with a prefix keeps the prefix and is worked out.
proof fn lemma_walk_is_worked_out(a: Seq<PartView>, b: Seq<PartView>)
    requires
        a.len() > 0,
        a[0] is Prefix,
        is_worked_out(a),
    ensures
        walked(a, b).len() > 0,
        walked(a, b)[0] == a[0],
        is_worked_out(walked(a, b)),
    decreases b.len(),
{
    if b.len() > 0 {
        lemma_walk_is_worked_out(a, b.drop_last());
        let before = walked(a, b.drop_last());
        let after = walked(a, b);
        assert forall|i: int| 1 <= i < after.len() implies match #[trigger] after[i] {
            PartView::RootDir => i == 1,
            PartView::CurDir => false,
            PartView::ParentDir => false,
            _ => true,
        } by {
            if i < before.len() && !(b.last() is RootDir) {
                assert(after[i] == before[i]);
            }
        }
    }
}

/// To walk a path that is worked out from its first component gives the path.
proof fn lemma_worked_out_walk(p: Seq<PartView>, n: int)
    requires
        1 <= n <= p.len(),
        is_worked_out(p),
    ensures
        walked(p.take(1), p.subrange(1, n)) == p.take(n),
    decreases n,
{
    let b = p.subrange(1, n);
    if n > 1 {
        lemma_worked_out_walk(p, n - 1);
        assert(b.drop_last() =~= p.subrange(1, n - 1));
        assert(b.last() == p[n - 1]);
        assert(p.take(n - 1).push(p[n - 1]) =~= p.take(n));
        assert(p.take(n - 1).take(1) =~= p.take(1));
        if p[n - 1] is RootDir {
            assert(p.take(1).push(p[n - 1]) =~= p.take(n));
        }
    }
}

/// Where a path is worked out, sanitizing it changes names alone.
proof fn lemma_worked_out_parts(p: Seq<PartView>)
    requires
        is_worked_out(p),
    ensures
        sanitized_path(p) == sanitized_parts(p),
{
    if is_verbatim(p) {
        let parts = sanitized_parts(p);
        assert forall|i: int| 1 <= i < parts.len() implies match #[trigger] parts[i] {
            PartView::RootDir => i == 1,
            PartView::CurDir => false,
            PartView::ParentDir => false,
            _ => true,
        } by {
            assert(parts[i] == sanitized_part(p[i]));
        }
        lemma_worked_out_walk(parts, parts.len() as int);
        assert(parts.take(1) =~= p.take(1));
        assert(parts.subrange(1, parts.len() as int) =~= sanitized_parts(p.skip(1)));
        assert(parts.take(parts.len() as int) =~= parts);
    }
}

/// Components whose names were sanitized stay as they are.
proof fn lemma_parts_are_idempotent(p: Seq<PartView>)
    ensures
        sanitized_parts(sanitized_parts(p)) == sanitized_parts(p),
{
    assert forall|i: int| 0 <= i < p.len() implies sanitized_part(
        #[trigger] sanitized_parts(p)[i],
    ) == sanitized_parts(p)[i] by {
        if let PartView::Normal(name) = p[i] {
            law_sanitizing_name_is_idempotent(name);
        }
    }
    assert(sanitized_parts(sanitized_parts(p)) =~= sanitized_parts(p));
}

/// What walking and sanitizing have in common: it makes no difference which comes first.
proof fn lemma_walking_commutes(a: Seq<PartView>, b: Seq<PartView>)
    ensures
        sanitized_parts(walked(a, b)) == walked(sanitized_parts(a), sanitized_parts(b)),
    decreases b.len(),
{
    if b.len() > 0 {
        lemma_walking_commutes(a, b.drop_last());
        let before = walked(a, b.drop_last());
        assert(sanitized_parts(b).drop_last() =~= sanitized_parts(b.drop_last()));
        assert(sanitized_parts(stepped(before, b.last())) =~= stepped(
            sanitized_parts(before),
            sanitized_part(b.last()),
        ));
    }
}

/// A sanitized path is one whose names are sanitized already, and below a verbatim prefix it is
/// worked out.
proof fn lemma_sanitized_path(p: Seq<PartView>)
    ensures
        sanitized_parts(sanitized_path(p)) == sanitized_path(p),
        is_verbatim(p) <==> is_verbatim(sanitized_path(p)),
        is_verbatim(p) ==> is_worked_out(sanitized_path(p)),
        is_verbatim(p) ==> sanitized_path(p)[0] == p[0],
{
    if is_verbatim(p) {
        let rest = sanitized_parts(p.skip(1));
        lemma_parts_are_idempotent(p.skip(1));
        lemma_walking_commutes(p.take(1), rest);
        assert(sanitized_parts(p.take(1)) =~= p.take(1));
        lemma_walk_is_worked_out(p.take(1), rest);
    } else {
        lemma_parts_are_idempotent(p);
    }
}

/// Every name in a sanitized path is one that every system accepts. But below a verbatim prefix,
/// every component stays in its place, and only names change.
pub proof fn law_sanitized_path_is_accepted(p: Seq<PartView>)
    ensures
        forall|i: int|
            0 <= i < sanitized_path(p).len() ==> match #[trigger] sanitized_path(p)[i] {
                PartView::Normal(name) => is_accepted_name(name),
                _ => true,
            },
        !is_verbatim(p) ==> sanitized_path(p).len() == p.len() && forall|i: int|
            0 <= i < p.len() ==> match #[trigger] sanitized_path(p)[i] {
                PartView::Normal(_) => p[i] is Normal,
                other => p[i] == other,
            },
        is_verbatim(p) ==> is_worked_out(sanitized_path(p)),
{
    lemma_sanitized_path(p);
    let r = sanitized_path(p);
    assert forall|i: int| 0 <= i < r.len() implies match #[trigger] r[i] {
        PartView::Normal(name) => is_accepted_name(name),
        _ => true,
    } by {
        assert(sanitized_parts(r)[i] == r[i]);
        if let PartView::Normal(name) = r[i] {
            law_sanitized_name_is_accepted(name);
        }
    }
}

/// To sanitize a path a second time changes nothing.
pub proof fn law_sanitizing_path_is_idempotent(p: Seq<PartView>)
    ensures
        sanitized_path(sanitized_path(p)) == sanitized_path(p),
{
    lemma_sanitized_path(p);
    if is_verbatim(p) {
        lemma_worked_out_parts(sanitized_path(p));
    }
}

/// It makes no difference whether paths are sanitized before they are joined or after, where a
/// place with a verbatim prefix is worked out.
pub proof fn law_sanitizing_and_joining_commute(a: Seq<PartView>, b: Seq<PartView>)
    requires
        is_verbatim(a) ==> is_worked_out(a),
    ensures
        sanitized_path(joined(a, b)) == joined(sanitized_path(a), sanitized_path(b)),
{
    lemma_sanitized_path(a);
    if b.len() > 0 && b[0] is Prefix {
        lemma_sanitized_path(b);
    } else if b.len() > 0 && is_verbatim(a) {
        lemma_walk_is_worked_out(a, b);
        lemma_worked_out_parts(a);
        lemma_worked_out_parts(walked(a, b));
        lemma_walking_commutes(a, b);
    } else if b.len() > 0 {
        assert(!is_verbatim(joined(a, b)));
        assert(sanitized_parts(joined(a, b)) =~= joined(sanitized_parts(a), sanitized_parts(b)));
    } else {
        assert(sanitized_path(b) =~= b);
    }
}

/// To walk one path and then another is to walk them both.
pub proof fn lemma_walks_add_up(a: Seq<PartView>, b: Seq<PartView>, c: Seq<PartView>)
    ensures
        walked(walked(a, b), c) == walked(a, b + c),
    decreases c.len(),
{
    if c.len() > 0 {
        lemma_walks_add_up(a, b, c.drop_last());
        assert((b + c).drop_last() =~= b + c.drop_last());
        assert((b + c).last() == c.last());
    } else {
        assert(b + c =~= b);
    }
}

/// Whether no component but a leading `.` is given a meaning of its own below a verbatim prefix.
pub open spec fn is_plain(p: Seq<PartView>) -> bool {
    forall|i: int|
        0 <= i < p.len() ==> match #[trigger] p[i] {
            PartView::RootDir => false,
            PartView::CurDir => i == 0,
            PartView::ParentDir => false,
            _ => true,
        }
}

/// A relative path goes on from the place it is joined to, whatever is before that place: to
/// join to a longer path only puts more in front. Below a verbatim prefix, where `.` and `..`
/// are worked out at once, that holds of plain paths.
pub proof fn law_relative_paths_go_on(a: Seq<PartView>, b: Seq<PartView>, c: Seq<PartView>)
    requires
        b.len() > 0,
        is_relative(b),
        is_relative(c),
        !(b[0] is CurDir),
        is_verbatim(a) ==> is_plain(b) && is_plain(c),
    ensures
        joined(joined(a, b), c) == a + joined(b, c),
{
    if is_verbatim(a) {
        lemma_plain_walk(a, b);
        assert(is_verbatim(a + b));
        lemma_plain_walk(a + b, c);
        assert(!is_verbatim(b));
        if c.len() > 0 && c[0] is CurDir {
            assert((a + b) + c.skip(1) =~= a + (b + c.skip(1)));
        } else {
            assert((a + b) + c =~= a + (b + c));
        }
    } else {
        assert(joined(a, b) == a + b);
        assert(!is_verbatim(a + b));
        assert(!is_verbatim(b));
        assert(joined(a + b, c) =~= a + joined(b, c));
    }
}

/// A plain path is walked as it is, but for a leading `.`.
pub proof fn lemma_plain_walk(a: Seq<PartView>, b: Seq<PartView>)
    requires
        is_plain(b),
    ensures
        walked(a, b) == a + if b.len() > 0 && b[0] is CurDir {
            b.skip(1)
        } else {
            b
        },
    decreases b.len(),
{
    if b.len() > 1 {
        let before = b.drop_last();
        assert forall|i: int| 0 <= i < before.len() implies match #[trigger] before[i] {
            PartView::RootDir => false,
            PartView::CurDir => i == 0,
            PartView::ParentDir => false,
            _ => true,
        } by {
            assert(before[i] == b[i]);
        }
        lemma_plain_walk(a, before);
        assert(b[b.len() - 1] == b.last());
        if b[0] is CurDir {
            assert((a + before.skip(1)).push(b.last()) =~= a + b.skip(1));
        } else {
            assert((a + before).push(b.last()) =~= a + b);
        }
    } else if b.len() == 1 {
        assert(b.drop_last() =~= Seq::<PartView>::empty());
        assert(walked(a, b.drop_last()) == a);
        assert(b[0] == b.last());
        if b[0] is CurDir {
            assert(a + b.skip(1) =~= a);
        } else {
            assert(a.push(b[0]) =~= a + b);
        }
    } else {
        assert(a + b =~= a);
    }
}

/// What is seen of a path is all that is in it, component by component.
pub proof fn law_view_of_path_is_whole(p: Seq<PathComponent>, i: int)
    requires
        0 <= i < p.len(),
    ensures
        path_view(p).len() == p.len(),
        match p[i] {
            PathComponent::Prefix { text, verbatim } => match path_view(p)[i] {
                PartView::Prefix { text: t, verbatim: v } => t == text@ && v == verbatim,
                _ => false,
            },
            PathComponent::RootDir => path_view(p)[i] is RootDir,
            PathComponent::CurDir => path_view(p)[i] is CurDir,
            PathComponent::ParentDir => path_view(p)[i] is ParentDir,
            PathComponent::Normal(name) => path_view(p)[i] == PartView::Normal(name@),
        },
{
}

/// A name alone is the path of that one name, unless it is one dot or two.
pub proof fn law_name_is_a_path(name: Seq<char>)
    ensures
        name != seq!['.'] && name != seq!['.', '.'] ==> path_named(name).len() == 1
            && path_named(name)[0] == PartView::Normal(name),
        path_named(seq!['.']) == seq![PartView::CurDir],
        path_named(seq!['.', '.']) == seq![PartView::ParentDir],
        single(name).len() == 1,
        single(name)[0] == PartView::Normal(name),
{
    reveal_strlit(".");
    reveal_strlit("..");
    assert("."@ =~= seq!['.']);
    assert(".."@ =~= seq!['.', '.']);
}

/// Each name in a path without a verbatim prefix becomes what sanitizing that name alone gives,
/// so that a name that every system accepts stays, and every other component stays as it is.
pub proof fn law_names_are_sanitized_one_by_one(p: Seq<PartView>, i: int)
    requires
        0 <= i < p.len(),
        match p[0] {
            PartView::Prefix { verbatim, .. } => !verbatim,
            _ => true,
        },
    ensures
        sanitized_path(p).len() == p.len(),
        match p[i] {
            PartView::Normal(name) => {
                &&& sanitized_path(p)[i] == PartView::Normal(sanitized_component(name))
                &&& is_accepted_name(name) ==> sanitized_path(p)[i] == p[i]
            },
            _ => sanitized_path(p)[i] == p[i],
        },
{
    if let PartView::Normal(name) = p[i] {
        if is_accepted_name(name) {
            law_accepted_name_stays(name);
        }
    }
}

/// Below a verbatim prefix a path is sanitized step by step: a name is added, as sanitizing that
/// name alone gives it; `.` adds nothing; `..` takes the name before it away; and a root starts
/// anew behind the prefix.
pub proof fn law_verbatim_paths_are_sanitized_by_steps(
    p: Seq<PartView>,
    text: Seq<char>,
    name: Seq<char>,
)
    requires
        p.len() > 0,
        p[0] == (PartView::Prefix { text, verbatim: true }),
    ensures
        sanitized_path(p.take(1)) == p.take(1),
        sanitized_path(p.push(PartView::Normal(name))) == sanitized_path(p).push(
            PartView::Normal(sanitized_component(name)),
        ),
        sanitized_path(p.push(PartView::CurDir)) == sanitized_path(p),
        sanitized_path(p.push(PartView::Normal(name)).push(PartView::ParentDir)) == sanitized_path(
            p,
        ),
        sanitized_path(p).len() > 0,
        sanitized_path(p.push(PartView::ParentDir)) == (if sanitized_path(p).last() is Normal {
            sanitized_path(p).drop_last()
        } else {
            sanitized_path(p)
        }),
        sanitized_path(p.push(PartView::RootDir)) == seq![p[0], PartView::RootDir],
{
    lemma_sanitized_path(p);
    lemma_walk_is_worked_out(p.take(1), sanitized_parts(p.skip(1)));
    lemma_sanitized_push(p, PartView::Normal(name));
    lemma_sanitized_push(p, PartView::CurDir);
    lemma_sanitized_push(p, PartView::ParentDir);
    lemma_sanitized_push(p, PartView::RootDir);
    let longer = p.push(PartView::Normal(name));
    lemma_sanitized_push(longer, PartView::ParentDir);
    assert(sanitized_path(p).push(PartView::Normal(sanitized_component(name))).drop_last()
        =~= sanitized_path(p));
    assert(sanitized_path(p).take(1).push(PartView::RootDir) =~= seq![p[0], PartView::RootDir]);
    assert(p.take(1).take(1) =~= p.take(1));
    assert(sanitized_parts(p.take(1).skip(1)) =~= Seq::<PartView>::empty());
}

proof fn lemma_sanitized_push(p: Seq<PartView>, part: PartView)
    requires
        is_verbatim(p),
    ensures
        sanitized_path(p.push(part)) == stepped(sanitized_path(p), sanitized_part(part)),
{
    let longer = p.push(part);
    let rest = sanitized_parts(longer.skip(1));
    assert(longer.take(1) =~= p.take(1));
    assert(rest.drop_last() =~= sanitized_parts(p.skip(1)));
    assert(rest.last() == sanitized_part(part));
}

/// What joining one component gives: a name or `..` is added, `.` only where nothing but a prefix
/// is before it, a root leaves the prefix alone, and a prefix leaves nothing. Below a verbatim
/// prefix `.` adds nothing and `..` takes a name away.
pub proof fn law_joining_one_component(a: Seq<PartView>, part: PartView)
    ensures
        joined(a, Seq::<PartView>::empty()) == a,
        part is Prefix ==> joined(a, seq![part]) == seq![part],
        part is Normal ==> joined(a, seq![part]) == a.push(part),
        part is ParentDir ==> joined(a, seq![part]) == (if a.len() == 0 {
            seq![part]
        } else {
            match a[0] {
                PartView::Prefix { verbatim: true, .. } => if a.last() is Normal {
                    a.drop_last()
                } else {
                    a
                },
                _ => a.push(part),
            }
        }),
        part is CurDir ==> joined(a, seq![part]) == (if a.len() == 0 {
            seq![part]
        } else {
            match a[0] {
                PartView::Prefix { verbatim, .. } => if a.len() == 1 && !verbatim {
                    a.push(part)
                } else {
                    a
                },
                _ => a,
            }
        }),
        part is RootDir ==> joined(a, seq![part]) == (if a.len() > 0 && a[0] is Prefix {
            seq![a[0], part]
        } else {
            seq![part]
        }),
{
    let b = seq![part];
    assert(b.drop_last() =~= Seq::<PartView>::empty());
    assert(b.skip(1) =~= Seq::<PartView>::empty());
    assert(b.last() == part);
    assert(walked(a, b.drop_last()) == a);
    assert(a + b =~= a.push(part));
    assert(a + b.skip(1) =~= a);
    if a.len() > 0 {
        assert(a.take(1).push(part) =~= seq![a[0], part]);
        assert(a.take(1) + b =~= seq![a[0], part]);
    } else {
        assert(a.push(part) =~= b);
        assert(a + b =~= b);
    }
    assert(Seq::<PartView>::empty() + b =~= b);
}

/// A component more at the end of what is joined is a component more at the end of the result;
/// below a verbatim prefix it is joined to the result in its turn.
pub proof fn law_joining_goes_by_components(a: Seq<PartView>, b: Seq<PartView>, part: PartView)
    requires
        b.len() > 0,
    ensures
        if a.len() == 0 || b[0] is Prefix {
            joined(a, b.push(part)) == joined(a, b).push(part)
        } else {
            match a[0] {
                PartView::Prefix { verbatim: true, .. } => part is Prefix || joined(
                    a,
                    b.push(part),
                ) == joined(joined(a, b), seq![part]),
                _ => joined(a, b.push(part)) == joined(a, b).push(part),
            }
        },
{
    let longer = b.push(part);
    assert(longer[0] == b[0]);
    assert(longer.drop_last() =~= b);
    assert(longer.skip(1) =~= b.skip(1).push(part));
    assert(a + longer =~= (a + b).push(part));
    assert(a + longer.skip(1) =~= (a + b.skip(1)).push(part));
    assert(prefix_of(a) + longer =~= (prefix_of(a) + b).push(part));
    if is_verbatim(a) && !(b[0] is Prefix) && !(part is Prefix) {
        lemma_walk_keeps_prefix(a, b);
        let r = walked(a, b);
        assert(seq![part].drop_last() =~= Seq::<PartView>::empty());
        assert(seq![part].last() == part);
        assert(walked(r, seq![part].drop_last()) == r);
        assert(walked(r, seq![part]) == stepped(r, part));
    }
}

/// What is walked from a place with a prefix keeps the prefix.
proof fn lemma_walk_keeps_prefix(a: Seq<PartView>, b: Seq<PartView>)
    requires
        a.len() > 0,
        a[0] is Prefix,
    ensures
        walked(a, b).len() > 0,
        walked(a, b)[0] == a[0],
    decreases b.len(),
{
    if b.len() > 0 {
        lemma_walk_keeps_prefix(a, b.drop_last());
    }
}

/// A path is taken for sanitizing if and only if every name in it is, each for itself.
pub proof fn law_paths_are_taken_by_their_names(p: Seq<PartView>, part: PartView)
    ensures
        path_can_sanitize(Seq::<PartView>::empty()),
        match part {
            PartView::Normal(name) => path_can_sanitize(p.push(part)) <==> path_can_sanitize(p)
                && can_sanitize(name),
            _ => path_can_sanitize(p.push(part)) <==> path_can_sanitize(p),
        },
{
    let longer = p.push(part);
    assert(longer[p.len() as int] == part);
    if path_can_sanitize(longer) {
        assert forall|i: int| 0 <= i < p.len() implies part_can_sanitize(#[trigger] p[i]) by {
            assert(longer[i] == p[i]);
        }
    }
    if path_can_sanitize(p) {
        assert forall|i: int| 0 <= i < p.len() implies part_can_sanitize(#[trigger] longer[i]) by {
            assert(longer[i] == p[i]);
        }
    }
}

} // verus!
