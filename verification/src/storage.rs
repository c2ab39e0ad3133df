//! The storage directory, and where request paths land inside it.
use vstd::prelude::*;
use crate::paths::{
    Comp, Component, body, components, components_of, comps_view, has_root, in_normal_form,
    law_normalize_idempotent, law_normalized_components, leading, lemma_body_of_path,
    lemma_components_well_formed, lemma_join_relative, lemma_rooted_names_fixed, normalize_chars,
    normalized, path_starts_with, push_path, push_path_chars, render, render_components, runs,
    starts_with_chars, valid_name, body_item, ends_with_sep, lemma_fold_skip_cancel,
    lemma_name_components, lemma_runs_cancel_path,
};
use crate::status::Status;
use crate::text::{chars_of, opt_view, string_of};

verus! {

/// A path as `Path::canonicalize` returns it on Unix: absolute, and with no
/// `.` or `..` among its components.
pub open spec fn is_canonical(s: Seq<char>) -> bool {
    &&& has_root(s)
    &&& forall|k: int|
        1 <= k < components(s).len() ==> (#[trigger] components(s)[k]) is Normal
}

/// The text of a result whose value is a `String`.
pub open spec fn result_view(r: Result<String, Status>) -> Result<Seq<char>, Status> {
    match r {
        Ok(s) => Ok(s@),
        Err(e) => Err(e),
    }
}

/// The canonical form of the path on this machine, where the file system can
/// give it as UTF-8 text.
///
/// Trusted: calls `std::path::Path::canonicalize`. Its documentation promises
/// the canonical, absolute form with all intermediate components normalized;
/// that is what `is_canonical` states of the text. Which path comes back, and
/// whether one does, depends on the file system and is left unsaid. A
/// result that is not UTF-8 comes back as `None`.
#[verifier::external_body]
pub(crate) fn canonicalize(path: &str) -> (r: Option<String>)
    ensures
        r matches Some(c) ==> is_canonical(c@),
{
    match std::path::Path::new(path).canonicalize() {
        Ok(p) => p.into_os_string().into_string().ok(),
        Err(_) => None,
    }
}

/// Where `path` lands under `base`: `base` joined with `path`, normalized,
/// accepted only if it still lies under `base`.
pub open spec fn spec_resolve(base: Seq<char>, path: Seq<char>) -> Result<Seq<char>, Status> {
    let n = normalized(push_path(base, path));
    if path_starts_with(n, base) {
        Ok(n)
    } else {
        Err(Status::BadRequest)
    }
}

/// Whether `path` lies strictly inside `base`: the components of `base` are
/// the first components of `path`, and `path` has more of them.
pub open spec fn strictly_inside(path: Seq<char>, base: Seq<char>) -> bool {
    path_starts_with(path, base) && components(base).len() < components(path).len()
}

/// The directory of a tag: `base` joined with `tag` and normalized, accepted
/// only if it lies strictly inside `base` (neither `base` itself nor anything
/// outside it can be a tag's directory).
pub open spec fn spec_tag_dir(base: Seq<char>, tag: Seq<char>) -> Result<Seq<char>, Status> {
    let n = normalized(push_path(base, tag));
    if strictly_inside(n, base) {
        Ok(n)
    } else {
        Err(Status::BadRequest)
    }
}

/// The answer for a requested file, given its canonical form (`None` where
/// it has none): missing files are not found, files outside `base` are a bad
/// request.
pub open spec fn spec_check_asset(base: Seq<char>, canonical: Option<Seq<char>>) -> Result<
    Seq<char>,
    Status,
> {
    match canonical {
        None => Err(Status::NotFound),
        Some(c) => if path_starts_with(c, base) {
            Ok(c)
        } else {
            Err(Status::BadRequest)
        },
    }
}

/// The parent of a path: all its components but the last, when the last is
/// not the root.
pub open spec fn parent_of(s: Seq<char>) -> Option<Seq<char>> {
    let cs = components(s);
    if cs.len() > 0 && cs.last() != Comp::Root {
        Some(render(cs.drop_last()))
    } else {
        None
    }
}

/// Whatever `resolve` accepts lies in the storage directory: the components
/// of the storage directory are the first components of the result.
pub proof fn law_resolve_within_base(base: Seq<char>, path: Seq<char>)
    ensures
        spec_resolve(base, path) matches Ok(r) ==> path_starts_with(r, base),
{
}

/// What `resolve` accepts is in normal form: normalizing it again changes
/// nothing, and it holds `..` only right after the root.
pub proof fn law_resolve_normal(base: Seq<char>, path: Seq<char>)
    ensures
        spec_resolve(base, path) matches Ok(r) ==> normalized(r) == r && in_normal_form(
            components(r),
        ),
{
    law_normalize_idempotent(push_path(base, path));
    law_normalized_components(push_path(base, path));
}

/// A relative path without `..` components always resolves, to the storage
/// directory followed by the path's names (a leading `.` dropped).
pub proof fn law_resolve_accepts_descendants(base: Seq<char>, path: Seq<char>)
    requires
        is_canonical(base),
        path.len() == 0 || path[0] != '/',
        forall|k: int| 0 <= k < components(path).len() ==> (#[trigger] components(path)[k]) != Comp::Parent,
    ensures
        spec_resolve(base, path) matches Ok(r) && components(r) == components(base) + body(
            runs(path),
        ),
{
    let j = push_path(base, path);
    lemma_join_relative(base, path);
    lemma_body_of_path(path);
    lemma_components_well_formed(base);
    let cb = components(base);
    let b = body(runs(path));
    let x = cb + b;
    assert(cb.len() > 0 && cb[0] is Root) by {
        assert(leading(base) =~= seq![Comp::Root]);
        assert(cb[0] == leading(base)[0]);
    }
    let l = leading(path);
    assert forall|k: int| 1 <= k < x.len() implies (#[trigger] x[k]) is Normal && valid_name(
        x[k]->Normal_0,
    ) by {
        if k < cb.len() {
            assert(x[k] == cb[k]);
        } else {
            assert(x[k] == b[k - cb.len()]);
            assert(body_item(b[k - cb.len()]));
            assert(components(path)[k - cb.len() + l.len()] == b[k - cb.len()]);
        }
    }
    lemma_rooted_names_fixed(x);
    law_normalized_components(j);
    let n = normalized(j);
    assert(components(n) == x);
    assert(x.take(cb.len() as int) =~= cb);
}

/// Resolving `n/../q` for a name `n` gives what resolving `q` gives.
pub proof fn law_resolve_cancel(base: Seq<char>, n: Seq<char>, q: Seq<char>)
    requires
        has_root(base),
        valid_name(n),
        q.len() == 0 || q[0] != '/',
    ensures
        spec_resolve(base, n + seq!['/', '.', '.', '/'] + q) == spec_resolve(base, q),
{
    let x = n + seq!['/', '.', '.', '/'] + q;
    assert(x[0] == n[0]);
    let jx = push_path(base, x);
    let jq = push_path(base, q);
    lemma_join_relative(base, x);
    lemma_join_relative(base, q);
    lemma_runs_cancel_path(n, q);
    let cb = components(base);
    let b = body(runs(q));
    let two = seq![Comp::Normal(n), Comp::Parent];
    assert(components(jx) =~= cb + two + b);
    lemma_fold_skip_cancel(cb, n, b);
    assert(jx[jx.len() - 1] == x[x.len() - 1]);
    if q.len() > 0 {
        assert(x[x.len() - 1] == q[q.len() - 1]);
        assert(jq[jq.len() - 1] == q[q.len() - 1]);
    } else {
        assert(x[x.len() - 1] == '/');
        assert(ends_with_sep(jq));
    }
    assert(ends_with_sep(jx) == ends_with_sep(jq));
    assert(normalized(jx) == normalized(jq));
}

/// A tag's directory lies strictly inside the storage directory, and a tag
/// that is a plain name always has one: the storage directory followed by
/// that name.
pub proof fn law_tag_dir_inside(base: Seq<char>, tag: Seq<char>)
    ensures
        spec_tag_dir(base, tag) matches Ok(p) ==> strictly_inside(p, base),
        is_canonical(base) && valid_name(tag) ==> (spec_tag_dir(base, tag) matches Ok(p)
            && components(p) == components(base).push(Comp::Normal(tag))),
{
    if is_canonical(base) && valid_name(tag) {
        let c = Comp::Normal(tag);
        lemma_name_components(c);
        assert(components(tag) == seq![c]);
        assert(forall|k: int|
            0 <= k < components(tag).len() ==> (#[trigger] components(tag)[k]) != Comp::Parent);
        law_resolve_accepts_descendants(base, tag);
        lemma_body_of_path(tag);
        assert(leading(tag).len() == 0) by {
            if leading(tag).len() > 0 {
                assert(components(tag)[0] == leading(tag)[0]);
            }
        }
        assert(body(runs(tag)) =~= seq![c]);
        assert(components(base) + seq![c] =~= components(base).push(c));
    }
}

/// A requested file is served exactly when the components of the storage
/// directory are the first components of its canonical form, however deep it
/// lies; otherwise it is a bad request; without a canonical form it is not
/// found.
pub proof fn law_check_asset(base: Seq<char>, c: Seq<char>)
    ensures
        spec_check_asset(base, None) == Err::<Seq<char>, Status>(Status::NotFound),
        components(base).len() <= components(c).len() && components(c).take(
            components(base).len() as int,
        ) == components(base) ==> spec_check_asset(base, Some(c)) == Ok::<Seq<char>, Status>(c),
        !(components(base).len() <= components(c).len() && components(c).take(
            components(base).len() as int,
        ) == components(base)) ==> spec_check_asset(base, Some(c)) == Err::<Seq<char>, Status>(
            Status::BadRequest,
        ),
{
}

/// The storage directory, held in canonical form.
pub struct StoragePath {
    base: String,
}

impl View for StoragePath {
    type V = Seq<char>;

    closed spec fn view(&self) -> Seq<char> {
        self.base@
    }
}

impl StoragePath {
    #[verifier::type_invariant]
    spec fn base_is_canonical(self) -> bool {
        is_canonical(self.base@)
    }

    /// The storage directory for `storage_path`, in canonical form; an
    /// internal server error where it cannot be canonicalized.
    pub fn new(storage_path: &str) -> (r: Result<Self, Status>)
        ensures
            match r {
                Ok(sp) => is_canonical(sp@),
                Err(e) => e == Status::InternalServerError,
            },
    {
        Self::from_canonical(canonicalize(storage_path))
    }

    /// The storage directory for the outcome of canonicalizing its path.
    pub fn from_canonical(canonical: Option<String>) -> (r: Result<Self, Status>)
        requires
            canonical matches Some(c) ==> is_canonical(c@),
        ensures
            match canonical {
                Some(c) => r matches Ok(sp) && sp@ == c@,
                None => r == Err::<Self, Status>(Status::InternalServerError),
            },
    {
        match canonical {
            Some(c) => Ok(StoragePath { base: c }),
            None => Err(Status::InternalServerError),
        }
    }

    /// The canonical storage directory.
    pub fn base(&self) -> (r: &str)
        ensures
            r@ == self@,
            is_canonical(r@),
    {
        proof {
            use_type_invariant(self);
        }
        self.base.as_str()
    }

    /// The normal form of a path (see `normalized`): `.` components dropped,
    /// each `..` removing the component before it where there is one that is
    /// not the root, a trailing separator kept.
    pub fn normalize_path(path: &str) -> (r: String)
        ensures
            r@ == normalized(path@),
    {
        let cs = chars_of(path);
        let n = normalize_chars(&cs);
        string_of(&n)
    }

    /// Where `path` lands in the storage directory: the normal form of the
    /// directory joined with `path`, or a bad request where that leaves the
    /// directory.
    pub fn resolve(&self, path: &str) -> (r: Result<String, Status>)
        ensures
            result_view(r) == spec_resolve(self@, path@),
    {
        let mut joined = chars_of(self.base.as_str());
        let base = chars_of(self.base.as_str());
        let p = chars_of(path);
        push_path_chars(&mut joined, &p);
        let n = normalize_chars(&joined);
        if starts_with_chars(&n, &base) {
            Ok(string_of(&n))
        } else {
            Err(Status::BadRequest)
        }
    }

    /// The directory of `tag`: the storage directory joined with `tag`,
    /// normalized; a bad request where that is the storage directory itself
    /// or lies outside it.
    pub fn tag_dir(&self, tag: &str) -> (r: Result<String, Status>)
        ensures
            result_view(r) == spec_tag_dir(self@, tag@),
    {
        let mut joined = chars_of(self.base.as_str());
        let base = chars_of(self.base.as_str());
        let t = chars_of(tag);
        push_path_chars(&mut joined, &t);
        let n = normalize_chars(&joined);
        if starts_with_chars(&n, &base) && components_of(&base).len() < components_of(&n).len() {
            Ok(string_of(&n))
        } else {
            Err(Status::BadRequest)
        }
    }

    /// The path of a stored file, before resolution: the storage directory
    /// joined with `tag`, then with `file_name`.
    pub fn asset_path(&self, tag: &str, file_name: &str) -> (r: String)
        ensures
            r@ == push_path(push_path(self@, tag@), file_name@),
    {
        let mut joined = chars_of(self.base.as_str());
        let t = chars_of(tag);
        let f = chars_of(file_name);
        push_path_chars(&mut joined, &t);
        push_path_chars(&mut joined, &f);
        string_of(&joined)
    }

    /// The answer for a requested file, given its canonical form.
    pub fn check_asset(&self, canonical: Option<String>) -> (r: Result<String, Status>)
        ensures
            result_view(r) == spec_check_asset(self@, opt_view(canonical)),
    {
        match canonical {
            None => Err(Status::NotFound),
            Some(c) => {
                let cc = chars_of(c.as_str());
                let base = chars_of(self.base.as_str());
                if starts_with_chars(&cc, &base) {
                    Ok(c)
                } else {
                    Err(Status::BadRequest)
                }
            },
        }
    }
}

/// The parent of a path, rendered with single separators (see `parent_of`).
pub fn parent_path(path: &str) -> (r: Option<String>)
    ensures
        match r {
            Some(p) => parent_of(path@) == Some(p@),
            None => parent_of(path@) is None,
        },
{
    let s = chars_of(path);
    let mut cs = components_of(&s);
    let n = cs.len();
    if n > 0 {
        let is_root = match &cs[n - 1] {
            Component::RootDir => true,
            _ => false,
        };
        if !is_root {
            let ghost before = comps_view(cs@);
            cs.pop();
            assert(comps_view(cs@) =~= before.drop_last());
            let r = render_components(&cs);
            return Some(string_of(&r));
        }
    }
    None
}

} // verus!
