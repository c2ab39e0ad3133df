//! Unix paths as text: how a path splits into components, how a path buffer
//! grows by `push`, and how `..` components are folded away.
use vstd::prelude::*;
use crate::text::{copy_chars, extend_chars, chars_eq};

verus! {

/// A path component: the root `/`, a leading `.`, a `..`, or a name.
pub enum Comp {
    Root,
    Cur,
    Parent,
    Normal(Seq<char>),
}

/// The runs of non-`/` characters of `s` that are complete, and the run
/// still open at the end of `s`.
pub open spec fn scan(s: Seq<char>) -> (Seq<Seq<char>>, Seq<char>)
    decreases s.len(),
{
    if s.len() == 0 {
        (Seq::empty(), Seq::empty())
    } else {
        let prev = scan(s.drop_last());
        if s.last() == '/' {
            if prev.1.len() > 0 {
                (prev.0.push(prev.1), Seq::empty())
            } else {
                (prev.0, Seq::empty())
            }
        } else {
            (prev.0, prev.1.push(s.last()))
        }
    }
}

/// The maximal runs of non-`/` characters of `s`, in order.
pub open spec fn runs(s: Seq<char>) -> Seq<Seq<char>> {
    let st = scan(s);
    if st.1.len() > 0 {
        st.0.push(st.1)
    } else {
        st.0
    }
}

/// What one run between separators contributes: nothing for `.`,
/// a parent step for `..`, a name otherwise.
pub open spec fn classify(run: Seq<char>) -> Seq<Comp> {
    if run == seq!['.'] {
        Seq::empty()
    } else if run == seq!['.', '.'] {
        seq![Comp::Parent]
    } else {
        seq![Comp::Normal(run)]
    }
}

/// The components that a sequence of runs contributes.
pub open spec fn body(rs: Seq<Seq<char>>) -> Seq<Comp>
    decreases rs.len(),
{
    if rs.len() == 0 {
        Seq::empty()
    } else {
        body(rs.drop_last()) + classify(rs.last())
    }
}

/// Whether the path starts at the root.
pub open spec fn has_root(s: Seq<char>) -> bool {
    s.len() > 0 && s[0] == '/'
}

/// The component that the start of a path contributes: the root, or a
/// leading `.` that stands alone.
pub open spec fn leading(s: Seq<char>) -> Seq<Comp> {
    if has_root(s) {
        seq![Comp::Root]
    } else if s.len() > 0 && s[0] == '.' && (s.len() == 1 || s[1] == '/') {
        seq![Comp::Cur]
    } else {
        Seq::empty()
    }
}

/// The components of a path, as `std::path::Path::components` yields
/// them on Unix.
pub open spec fn components(s: Seq<char>) -> Seq<Comp> {
    leading(s) + body(runs(s))
}

/// `PathBuf::push` on Unix: an absolute `p` replaces the buffer; otherwise a
/// separator is put between a non-empty buffer that does not end in one
/// and `p`.
pub open spec fn push_path(buf: Seq<char>, p: Seq<char>) -> Seq<char> {
    if p.len() > 0 && p[0] == '/' {
        p
    } else if buf.len() > 0 && buf.last() != '/' {
        buf + seq!['/'] + p
    } else {
        buf + p
    }
}

/// The text of one component.
pub open spec fn comp_text(c: Comp) -> Seq<char> {
    match c {
        Comp::Root => seq!['/'],
        Comp::Cur => seq!['.'],
        Comp::Parent => seq!['.', '.'],
        Comp::Normal(t) => t,
    }
}

/// The text that pushing each component in turn onto an empty buffer gives.
pub open spec fn render(cs: Seq<Comp>) -> Seq<char>
    decreases cs.len(),
{
    if cs.len() == 0 {
        Seq::empty()
    } else {
        push_path(render(cs.drop_last()), comp_text(cs.last()))
    }
}

/// One step of normalization: the root restarts the buffer, `..` removes
/// the last component when the buffer has one that is not the root (and is
/// kept otherwise), and any other component is appended.
pub open spec fn norm_step(stack: Seq<Comp>, c: Comp) -> Seq<Comp> {
    match c {
        Comp::Root => seq![Comp::Root],
        Comp::Parent => if stack.len() > 0 && stack.last() != Comp::Root {
            stack.drop_last()
        } else {
            stack.push(Comp::Parent)
        },
        _ => stack.push(c),
    }
}

/// The components left after folding every component of `cs` in turn.
pub open spec fn normalize_comps(cs: Seq<Comp>) -> Seq<Comp>
    decreases cs.len(),
{
    if cs.len() == 0 {
        Seq::empty()
    } else {
        norm_step(normalize_comps(cs.drop_last()), cs.last())
    }
}

/// Whether the text ends in a separator.
pub open spec fn ends_with_sep(s: Seq<char>) -> bool {
    s.len() > 0 && s.last() == '/'
}

/// The normal form of a path: its components folded, rendered again, with a
/// trailing separator kept where the path had one.
pub open spec fn normalized(s: Seq<char>) -> Seq<char> {
    let r = render(normalize_comps(components(s)));
    if ends_with_sep(s) {
        push_path(r, Seq::empty())
    } else {
        r
    }
}

/// `Path::starts_with`: the components of `base` are the first components
/// of `path`.
pub open spec fn path_starts_with(path: Seq<char>, base: Seq<char>) -> bool {
    let b = components(base);
    let p = components(path);
    b.len() <= p.len() && p.take(b.len() as int) == b
}

/// The text holds no separator.
pub open spec fn no_sep(t: Seq<char>) -> bool {
    forall|i: int| 0 <= i < t.len() ==> t[i] != '/'
}

/// A name a `Normal` component can carry: non-empty, without separator, and
/// neither `.` nor `..`.
pub open spec fn valid_name(t: Seq<char>) -> bool {
    &&& t.len() > 0
    &&& no_sep(t)
    &&& t != seq!['.']
    &&& t != seq!['.', '.']
}

/// The shape of the components of any path: the root or a `.` only first,
/// and names that are valid.
pub open spec fn well_formed(cs: Seq<Comp>) -> bool {
    forall|k: int|
        0 <= k < cs.len() ==> match #[trigger] cs[k] {
            Comp::Root => k == 0,
            Comp::Cur => k == 0,
            Comp::Parent => true,
            Comp::Normal(t) => valid_name(t),
        }
}

/// The shape of folded components: well formed, with a `..` only first or
/// right after the root.
pub open spec fn in_normal_form(cs: Seq<Comp>) -> bool {
    &&& well_formed(cs)
    &&& forall|k: int|
        0 <= k < cs.len() && (#[trigger] cs[k]) is Parent ==> k == 0 || (k == 1 && cs[0] is Root)
}

/// Every run is non-empty and holds no separator.
pub open spec fn runs_valid(rs: Seq<Seq<char>>) -> bool {
    forall|k: int| 0 <= k < rs.len() ==> (#[trigger] rs[k]).len() > 0 && no_sep(rs[k])
}

/// What a run between separators can stand for.
pub open spec fn body_item(c: Comp) -> bool {
    match c {
        Comp::Parent => true,
        Comp::Normal(t) => valid_name(t),
        _ => false,
    }
}

proof fn lemma_scan_sep(a: Seq<char>)
    ensures
        scan(a.push('/')) == (runs(a), Seq::<char>::empty()),
{
    assert(a.push('/').drop_last() =~= a);
}

proof fn lemma_scan_concat(a: Seq<char>, b: Seq<char>)
    ensures
        scan(a.push('/') + b) == (runs(a) + scan(b).0, scan(b).1),
    decreases b.len(),
{
    if b.len() == 0 {
        assert(a.push('/') + b =~= a.push('/'));
        lemma_scan_sep(a);
        assert(runs(a) + scan(b).0 =~= runs(a));
    } else {
        let x = a.push('/') + b;
        assert(x.drop_last() =~= a.push('/') + b.drop_last());
        assert(x.last() == b.last());
        lemma_scan_concat(a, b.drop_last());
        let p = scan(b.drop_last());
        if b.last() == '/' {
            if p.1.len() > 0 {
                assert((runs(a) + p.0).push(p.1) =~= runs(a) + p.0.push(p.1));
            }
        }
    }
}

proof fn lemma_runs_concat(a: Seq<char>, b: Seq<char>)
    ensures
        runs(a.push('/') + b) == runs(a) + runs(b),
{
    lemma_scan_concat(a, b);
    let st = scan(b);
    if st.1.len() > 0 {
        assert((runs(a) + st.0).push(st.1) =~= runs(a) + st.0.push(st.1));
    }
}

proof fn lemma_scan_name(t: Seq<char>)
    requires
        no_sep(t),
    ensures
        scan(t) == (Seq::<Seq<char>>::empty(), t),
    decreases t.len(),
{
    if t.len() > 0 {
        assert(t.drop_last().push(t.last()) =~= t);
        lemma_scan_name(t.drop_last());
    } else {
        assert(t =~= Seq::<char>::empty());
    }
}

proof fn lemma_runs_name(t: Seq<char>)
    requires
        no_sep(t),
        t.len() > 0,
    ensures
        runs(t) == seq![t],
{
    lemma_scan_name(t);
    assert(Seq::<Seq<char>>::empty().push(t) =~= seq![t]);
}

proof fn lemma_scan_valid(s: Seq<char>)
    ensures
        runs_valid(scan(s).0),
        no_sep(scan(s).1),
        runs_valid(runs(s)),
    decreases s.len(),
{
    if s.len() > 0 {
        lemma_scan_valid(s.drop_last());
        let p = scan(s.drop_last());
        if s.last() != '/' {
            assert(no_sep(p.1.push(s.last())));
        } else if p.1.len() > 0 {
            assert(runs_valid(p.0.push(p.1)));
        }
    }
    let st = scan(s);
    if st.1.len() > 0 {
        assert(runs_valid(st.0.push(st.1)));
    }
}

proof fn lemma_body_concat(x: Seq<Seq<char>>, y: Seq<Seq<char>>)
    ensures
        body(x + y) == body(x) + body(y),
    decreases y.len(),
{
    if y.len() == 0 {
        assert(x + y =~= x);
        assert(body(x) + body(y) =~= body(x));
    } else {
        assert((x + y).drop_last() =~= x + y.drop_last());
        assert((x + y).last() == y.last());
        lemma_body_concat(x, y.drop_last());
        assert(body(x) + body(y.drop_last()) + classify(y.last()) =~= body(x) + (body(
            y.drop_last(),
        ) + classify(y.last())));
    }
}

proof fn lemma_body_items(rs: Seq<Seq<char>>)
    requires
        runs_valid(rs),
    ensures
        forall|k: int| 0 <= k < body(rs).len() ==> body_item(#[trigger] body(rs)[k]),
    decreases rs.len(),
{
    if rs.len() > 0 {
        let r = rs.last();
        assert(runs_valid(rs.drop_last()));
        lemma_body_items(rs.drop_last());
        assert(r.len() > 0 && no_sep(r));
        let b = body(rs.drop_last());
        assert forall|k: int| 0 <= k < body(rs).len() implies body_item(#[trigger] body(rs)[k]) by {
            if k < b.len() {
                assert(body(rs)[k] == b[k]);
            } else {
                assert(body(rs)[k] == classify(r)[k - b.len()]);
            }
        }
    }
}

/// The components of every path are well formed.
pub(crate) proof fn lemma_components_well_formed(s: Seq<char>)
    ensures
        well_formed(components(s)),
        forall|k: int|
            leading(s).len() <= k < components(s).len() ==> body_item(#[trigger] components(s)[k]),
{
    lemma_scan_valid(s);
    lemma_body_items(runs(s));
    let l = leading(s);
    let b = body(runs(s));
    let cs = components(s);
    assert forall|k: int| 0 <= k < cs.len() implies match #[trigger] cs[k] {
        Comp::Root => k == 0,
        Comp::Cur => k == 0,
        Comp::Parent => true,
        Comp::Normal(t) => valid_name(t),
    } by {
        if k >= l.len() {
            assert(cs[k] == b[k - l.len()]);
            assert(body_item(b[k - l.len()]));
        }
    }
    assert forall|k: int| l.len() <= k < cs.len() implies body_item(#[trigger] cs[k]) by {
        assert(cs[k] == b[k - l.len()]);
    }
}

proof fn lemma_norm_normal_form(cs: Seq<Comp>)
    requires
        well_formed(cs),
    ensures
        in_normal_form(normalize_comps(cs)),
    decreases cs.len(),
{
    if cs.len() > 0 {
        let pre = cs.drop_last();
        let c = cs.last();
        assert(well_formed(pre)) by {
            assert forall|k: int| 0 <= k < pre.len() implies match #[trigger] pre[k] {
                Comp::Root => k == 0,
                Comp::Cur => k == 0,
                Comp::Parent => true,
                Comp::Normal(t) => valid_name(t),
            } by {
                assert(pre[k] == cs[k]);
            }
        }
        lemma_norm_normal_form(pre);
        let st = normalize_comps(pre);
        let r = normalize_comps(cs);
        assert(cs[cs.len() - 1] == c);
        match c {
            Comp::Root => {
                assert(r =~= seq![Comp::Root]);
            },
            Comp::Cur => {
                assert(cs.len() - 1 == 0);
                assert(pre =~= Seq::<Comp>::empty());
                assert(r =~= seq![Comp::Cur]);
            },
            Comp::Parent => {
                if st.len() > 0 && st.last() != Comp::Root {
                    assert(r =~= st.drop_last());
                    assert forall|k: int| 0 <= k < r.len() implies (#[trigger] r[k] == st[k]) by {}
                } else {
                    assert(r =~= st.push(Comp::Parent));
                    if st.len() > 0 {
                        assert(st[st.len() - 1] is Root);
                        assert(st.len() - 1 == 0);
                    }
                    assert forall|k: int| 0 <= k < st.len() implies (#[trigger] r[k] == st[k]) by {}
                }
            },
            Comp::Normal(t) => {
                assert(r =~= st.push(c));
                assert forall|k: int| 0 <= k < st.len() implies (#[trigger] r[k] == st[k]) by {}
            },
        }
    }
}

proof fn lemma_norm_fixed(cs: Seq<Comp>)
    requires
        in_normal_form(cs),
    ensures
        normalize_comps(cs) == cs,
    decreases cs.len(),
{
    if cs.len() > 0 {
        let pre = cs.drop_last();
        let c = cs.last();
        assert(cs[cs.len() - 1] == c);
        assert(in_normal_form(pre)) by {
            assert forall|k: int| 0 <= k < pre.len() implies (#[trigger] pre[k] == cs[k]) by {}
        }
        lemma_norm_fixed(pre);
        match c {
            Comp::Root => {
                assert(cs.len() == 1);
                assert(cs =~= seq![Comp::Root]);
            },
            Comp::Parent => {
                if cs.len() - 1 == 0 {
                    assert(pre =~= Seq::<Comp>::empty());
                } else {
                    assert(cs.len() == 2 && cs[0] is Root);
                    assert(pre[0] == cs[0]);
                }
                assert(pre.push(c) =~= cs);
            },
            _ => {
                assert(pre.push(c) =~= cs);
            },
        }
    }
}

proof fn lemma_leading_extend(r: Seq<char>, t: Seq<char>)
    requires
        r.len() > 0,
    ensures
        leading(r.push('/') + t) == leading(r),
{
    let x = r.push('/') + t;
    assert(x[0] == r[0]);
    assert(x.len() >= 2);
    if r.len() == 1 {
        assert(x[1] == '/');
    } else {
        assert(x[1] == r[1]);
    }
}

/// A non-empty path keeps its components when a separator is appended.
proof fn lemma_components_trailing(r: Seq<char>)
    requires
        r.len() > 0,
    ensures
        components(r.push('/')) == components(r),
{
    let e = Seq::<char>::empty();
    assert(r.push('/') + e =~= r.push('/'));
    lemma_runs_concat(r, e);
    lemma_leading_extend(r, e);
    assert(runs(e) =~= Seq::<Seq<char>>::empty());
    assert(runs(r) + runs(e) =~= runs(r));
}

pub(crate) proof fn lemma_name_components(c: Comp)
    requires
        c is Cur || body_item(c),
    ensures
        components(comp_text(c)) == seq![c],
        comp_text(c).len() > 0,
        comp_text(c)[0] != '/',
        comp_text(c).last() != '/',
        no_sep(comp_text(c)),
{
    let t = comp_text(c);
    match c {
        Comp::Cur => {
            assert(no_sep(t));
            lemma_runs_name(t);
            assert(seq![t].drop_last() =~= Seq::<Seq<char>>::empty());
            assert(seq![t].last() == t);
            assert(classify(t) =~= Seq::<Comp>::empty());
            assert(body(Seq::<Seq<char>>::empty()) =~= Seq::<Comp>::empty());
            assert(body(seq![t]) =~= Seq::<Comp>::empty());
            assert(components(t) =~= seq![c]);
        },
        Comp::Parent => {
            assert(no_sep(t));
            lemma_runs_name(t);
            assert(seq![t].drop_last() =~= Seq::<Seq<char>>::empty());
            assert(t != seq!['.']) by {
                assert(t.len() != seq!['.'].len());
            }
            assert(seq![t].last() == t);
            assert(classify(t) =~= seq![Comp::Parent]);
            assert(body(Seq::<Seq<char>>::empty()) =~= Seq::<Comp>::empty());
            assert(body(seq![t]) =~= seq![Comp::Parent]);
            assert(leading(t) =~= Seq::<Comp>::empty());
            assert(components(t) =~= seq![c]);
        },
        Comp::Normal(n) => {
            lemma_runs_name(t);
            assert(seq![t].drop_last() =~= Seq::<Seq<char>>::empty());
            assert(seq![t].last() == t);
            assert(t == n);
            assert(valid_name(n));
            assert(classify(t) =~= seq![c]);
            assert(body(Seq::<Seq<char>>::empty()) =~= Seq::<Comp>::empty());
            assert(body(seq![t]) =~= seq![c]);
            assert(leading(t) =~= Seq::<Comp>::empty()) by {
                if t[0] == '.' && t.len() == 1 {
                    assert(t =~= seq!['.']);
                }
            }
            assert(components(t) =~= seq![c]);
        },
        Comp::Root => {},
    }
}

/// Rendering well-formed components and splitting the text again gives the
/// same components; the text is empty exactly for no components, and ends in
/// a separator exactly for the root alone.
proof fn lemma_render_components(cs: Seq<Comp>)
    requires
        well_formed(cs),
    ensures
        components(render(cs)) == cs,
        render(cs).len() == 0 <==> cs.len() == 0,
        cs.len() > 0 ==> (render(cs).last() == '/' <==> (cs.len() == 1 && cs[0] is Root)),
    decreases cs.len(),
{
    if cs.len() == 0 {
        assert(components(Seq::<char>::empty()) =~= Seq::<Comp>::empty());
    } else {
        let pre = cs.drop_last();
        let c = cs.last();
        assert(cs[cs.len() - 1] == c);
        assert(well_formed(pre)) by {
            assert forall|k: int| 0 <= k < pre.len() implies match #[trigger] pre[k] {
                Comp::Root => k == 0,
                Comp::Cur => k == 0,
                Comp::Parent => true,
                Comp::Normal(t) => valid_name(t),
            } by {
                assert(pre[k] == cs[k]);
            }
        }
        lemma_render_components(pre);
        let rp = render(pre);
        let r = render(cs);
        if c is Root {
            assert(cs.len() == 1);
            assert(pre =~= Seq::<Comp>::empty());
            assert(r =~= seq!['/']);
            let e = Seq::<char>::empty();
            lemma_scan_sep(e);
            assert(e.push('/') =~= seq!['/']);
            assert(runs(e) =~= Seq::<Seq<char>>::empty());
            assert(components(r) =~= seq![Comp::Root]);
            assert(cs =~= seq![Comp::Root]);
        } else {
            if c is Cur {
                assert(cs.len() - 1 == 0);
            }
            lemma_name_components(c);
            let t = comp_text(c);
            if pre.len() == 0 {
                assert(rp =~= Seq::<char>::empty());
                assert(r =~= t);
                assert(cs =~= seq![c]);
            } else if rp.last() == '/' {
                assert(pre.len() == 1 && pre[0] is Root);
                assert(pre =~= seq![Comp::Root]);
                assert(render(seq![Comp::Root]) =~= seq!['/']) by {
                    assert(seq![Comp::Root].drop_last() =~= Seq::<Comp>::empty());
                }
                let e = Seq::<char>::empty();
                assert(r =~= e.push('/') + t);
                lemma_runs_concat(e, t);
                lemma_runs_name(t);
                assert(runs(e) =~= Seq::<Seq<char>>::empty());
                assert(runs(e) + runs(t) =~= seq![t]);
                assert(seq![t].drop_last() =~= Seq::<Seq<char>>::empty());
                assert(body(seq![t]) =~= classify(t));
                assert(components(t) == seq![c]);
                assert(!(c is Cur));
                assert(leading(t) =~= Seq::<Comp>::empty()) by {
                    if leading(t).len() > 0 {
                        assert(components(t)[0] == leading(t)[0]);
                    }
                }
                assert(classify(t) =~= seq![c]) by {
                    lemma_scan_name(t);
                    assert(body(runs(t)) =~= body(seq![t]));
                    assert(components(t) =~= leading(t) + body(runs(t)));
                }
                assert(components(r) =~= seq![Comp::Root, c]);
                assert(cs =~= seq![Comp::Root, c]);
            } else {
                assert(r =~= rp.push('/') + t);
                lemma_runs_concat(rp, t);
                lemma_leading_extend(rp, t);
                lemma_runs_name(t);
                lemma_body_concat(runs(rp), seq![t]);
                assert(seq![t].drop_last() =~= Seq::<Seq<char>>::empty());
                assert(body(seq![t]) =~= classify(t));
                assert(!(c is Cur));
                assert(classify(t) =~= seq![c]) by {
                    lemma_scan_name(t);
                    assert(leading(t) =~= Seq::<Comp>::empty()) by {
                        if leading(t).len() > 0 {
                            assert(components(t)[0] == leading(t)[0]);
                        }
                    }
                    assert(body(runs(t)) =~= body(seq![t]));
                    assert(components(t) =~= leading(t) + body(runs(t)));
                }
                assert(components(r) =~= components(rp) + seq![c]);
                assert(cs =~= pre.push(c));
            }
            assert(r.last() == t.last());
        }
    }
}

/// Normalizing a path yields a path whose components are the folded
/// components of the original, and those hold `..` only first or right after
/// the root.
pub proof fn law_normalized_components(s: Seq<char>)
    ensures
        components(normalized(s)) == normalize_comps(components(s)),
        in_normal_form(components(normalized(s))),
{
    lemma_components_well_formed(s);
    let st = normalize_comps(components(s));
    lemma_norm_normal_form(components(s));
    lemma_render_components(st);
    let r = render(st);
    if ends_with_sep(s) && r.len() > 0 && r.last() != '/' {
        assert(push_path(r, Seq::empty()) =~= r.push('/'));
        lemma_components_trailing(r);
    } else if ends_with_sep(s) {
        assert(push_path(r, Seq::empty()) =~= r);
    }
}

/// Normalizing a path twice gives what normalizing it once gives.
pub proof fn law_normalize_idempotent(s: Seq<char>)
    ensures
        normalized(normalized(s)) == normalized(s),
{
    law_normalized_components(s);
    let st = normalize_comps(components(s));
    lemma_norm_fixed(st);
    lemma_render_components(st);
    let r = render(st);
    let n = normalized(s);
    assert(normalize_comps(components(n)) == st);
    if ends_with_sep(s) {
        if r.len() > 0 && r.last() != '/' {
            assert(n =~= r.push('/'));
            assert(ends_with_sep(n));
        } else {
            assert(n =~= r);
            if r.len() > 0 {
                assert(push_path(r, Seq::empty()) =~= r);
            }
        }
    } else {
        assert(n == r);
        if ends_with_sep(r) {
            assert(push_path(r, Seq::empty()) =~= r);
        }
    }
}

/// Joining a relative path onto a rooted one appends the components that the
/// runs of the relative path stand for.
pub(crate) proof fn lemma_join_relative(base: Seq<char>, p: Seq<char>)
    requires
        has_root(base),
        p.len() == 0 || p[0] != '/',
    ensures
        components(push_path(base, p)) == components(base) + body(runs(p)),
{
    let j = push_path(base, p);
    if base.last() != '/' {
        assert(j =~= base.push('/') + p);
        lemma_runs_concat(base, p);
        lemma_leading_extend(base, p);
        lemma_body_concat(runs(base), runs(p));
    } else {
        let a = base.drop_last();
        let e = Seq::<char>::empty();
        assert(j =~= a.push('/') + p);
        assert(base =~= a.push('/') + e);
        lemma_runs_concat(a, p);
        lemma_runs_concat(a, e);
        assert(runs(e) =~= Seq::<Seq<char>>::empty());
        assert(runs(a) + runs(e) =~= runs(a));
        assert(j[0] == '/');
        assert(leading(j) == leading(base));
        lemma_body_concat(runs(a), runs(p));
    }
}

/// Rooted components followed only by names are in normal form, and so are
/// left as they are by folding.
pub(crate) proof fn lemma_rooted_names_fixed(cs: Seq<Comp>)
    requires
        cs.len() > 0,
        cs[0] is Root,
        forall|k: int| 1 <= k < cs.len() ==> (#[trigger] cs[k]) is Normal && valid_name(cs[k]->Normal_0),
    ensures
        in_normal_form(cs),
        normalize_comps(cs) == cs,
{
    assert(well_formed(cs));
    lemma_norm_fixed(cs);
}

/// The runs of a path stand for names and `..` steps only.
pub(crate) proof fn lemma_body_of_path(p: Seq<char>)
    ensures
        forall|k: int| 0 <= k < body(runs(p)).len() ==> body_item(#[trigger] body(runs(p))[k]),
        components(p) == leading(p) + body(runs(p)),
{
    lemma_scan_valid(p);
    lemma_body_items(runs(p));
}

/// Rendering all components of a path but the last gives a text whose
/// components are exactly those.
pub(crate) proof fn lemma_render_prefix(s: Seq<char>)
    requires
        components(s).len() > 0,
    ensures
        components(render(components(s).drop_last())) == components(s).drop_last(),
{
    lemma_components_well_formed(s);
    let cs = components(s);
    let pre = cs.drop_last();
    assert(well_formed(pre)) by {
        assert forall|k: int| 0 <= k < pre.len() implies match #[trigger] pre[k] {
            Comp::Root => k == 0,
            Comp::Cur => k == 0,
            Comp::Parent => true,
            Comp::Normal(t) => valid_name(t),
        } by {
            assert(pre[k] == cs[k]);
        }
    }
    lemma_render_components(pre);
}

/// Folding the components `ys` in turn onto the folded components `stack`.
pub open spec fn fold_from(stack: Seq<Comp>, ys: Seq<Comp>) -> Seq<Comp>
    decreases ys.len(),
{
    if ys.len() == 0 {
        stack
    } else {
        norm_step(fold_from(stack, ys.drop_last()), ys.last())
    }
}

proof fn lemma_norm_is_fold(cs: Seq<Comp>)
    ensures
        normalize_comps(cs) == fold_from(Seq::empty(), cs),
    decreases cs.len(),
{
    if cs.len() > 0 {
        lemma_norm_is_fold(cs.drop_last());
    }
}

proof fn lemma_fold_concat(s: Seq<Comp>, x: Seq<Comp>, y: Seq<Comp>)
    ensures
        fold_from(s, x + y) == fold_from(fold_from(s, x), y),
    decreases y.len(),
{
    if y.len() == 0 {
        assert(x + y =~= x);
    } else {
        assert((x + y).drop_last() =~= x + y.drop_last());
        assert((x + y).last() == y.last());
        lemma_fold_concat(s, x, y.drop_last());
    }
}

/// A name followed by `..` folds away to nothing.
proof fn lemma_fold_cancel(s: Seq<Comp>, n: Seq<char>)
    ensures
        fold_from(s, seq![Comp::Normal(n), Comp::Parent]) == s,
{
    let two = seq![Comp::Normal(n), Comp::Parent];
    let one = seq![Comp::Normal(n)];
    assert(two.drop_last() =~= one);
    assert(two.last() == Comp::Parent);
    assert(one.drop_last() =~= Seq::<Comp>::empty());
    assert(one.last() == Comp::Normal(n));
    assert(fold_from(s, Seq::<Comp>::empty()) == s);
    assert(fold_from(s, one) == s.push(Comp::Normal(n)));
    assert(s.push(Comp::Normal(n)).last() != Comp::Root);
    assert(s.push(Comp::Normal(n)).drop_last() =~= s);
}

/// Joining one run onto a non-empty path appends what the run stands for.
proof fn lemma_join_run(p: Seq<char>, t: Seq<char>)
    requires
        p.len() > 0,
        t.len() > 0,
        no_sep(t),
    ensures
        components(push_path(p, t)) == components(p) + classify(t),
        push_path(p, t).last() == t.last(),
{
    let j = push_path(p, t);
    lemma_runs_name(t);
    if p.last() != '/' {
        assert(j =~= p.push('/') + t);
        lemma_runs_concat(p, t);
        lemma_leading_extend(p, t);
        lemma_body_concat(runs(p), seq![t]);
    } else {
        let a = p.drop_last();
        let e = Seq::<char>::empty();
        assert(j =~= a.push('/') + t);
        assert(p =~= a.push('/') + e);
        lemma_runs_concat(a, t);
        lemma_runs_concat(a, e);
        assert(runs(e) =~= Seq::<Seq<char>>::empty());
        assert(runs(a) + runs(e) =~= runs(a));
        assert(j[0] == p[0]);
        if p.len() >= 2 {
            assert(j[1] == p[1]);
        }
        assert(leading(j) == leading(p));
        lemma_body_concat(runs(a), seq![t]);
    }
    assert(seq![t].drop_last() =~= Seq::<Seq<char>>::empty());
    assert(seq![t].last() == t);
    assert(body(Seq::<Seq<char>>::empty()) =~= Seq::<Comp>::empty());
    assert(body(seq![t]) =~= classify(t));
    assert(j[j.len() - 1] == t[t.len() - 1]);
}

/// Joining a name and then `..` onto a path and normalizing gives a path
/// with the same components as the normal form of the path; the text is the
/// same too where the path has no trailing separator (which the normal form
/// keeps and the joined path has not).
pub proof fn law_normalize_cancel(p: Seq<char>, n: Seq<char>)
    requires
        valid_name(n),
    ensures
        components(normalized(push_path(push_path(p, n), seq!['.', '.']))) == components(
            normalized(p),
        ),
        !ends_with_sep(p) ==> normalized(push_path(push_path(p, n), seq!['.', '.'])) == normalized(
            p,
        ),
{
    let dd = seq!['.', '.'];
    let q = push_path(p, n);
    let r = push_path(q, dd);
    let nm = Comp::Normal(n);
    assert(classify(n) =~= seq![nm]);
    assert(dd != seq!['.']) by {
        assert(dd.len() != seq!['.'].len());
    }
    assert(classify(dd) =~= seq![Comp::Parent]);
    if p.len() == 0 {
        assert(q =~= n);
        lemma_name_components(nm);
        assert(components(p) =~= Seq::<Comp>::empty());
        assert(components(q) =~= components(p) + seq![nm]);
    } else {
        lemma_join_run(p, n);
    }
    assert(no_sep(dd));
    lemma_join_run(q, dd);
    let cp = components(p);
    assert(components(r) =~= cp + seq![nm, Comp::Parent]);
    lemma_norm_is_fold(components(r));
    lemma_norm_is_fold(cp);
    lemma_fold_concat(Seq::empty(), cp, seq![nm, Comp::Parent]);
    lemma_fold_cancel(fold_from(Seq::empty(), cp), n);
    assert(!ends_with_sep(r));
    law_normalized_components(r);
    law_normalized_components(p);
}

/// Joining is associative: joining `c` onto `a` joined with `b` gives `a`
/// joined with (`b` joined with `c`).
pub proof fn law_push_path_assoc(a: Seq<char>, b: Seq<char>, c: Seq<char>)
    ensures
        push_path(push_path(a, b), c) == push_path(a, push_path(b, c)),
{
    let ab = push_path(a, b);
    let bc = push_path(b, c);
    if c.len() > 0 && c[0] == '/' {
    } else if b.len() > 0 && b[0] == '/' {
        assert(bc[0] == b[0]);
    } else if b.len() == 0 {
        assert(bc =~= c);
        if a.len() > 0 && a.last() != '/' {
            assert(ab =~= a.push('/'));
            assert(push_path(ab, c) =~= a + seq!['/'] + c);
        } else {
            assert(ab =~= a);
        }
    } else {
        assert(bc[0] == b[0]);
        if a.len() > 0 && a.last() != '/' {
            assert(ab =~= a + seq!['/'] + b);
        } else {
            assert(ab =~= a + b);
        }
        assert(ab.len() > 0 && ab.last() == b.last());
        if b.last() != '/' {
            assert(bc =~= b + seq!['/'] + c);
        } else {
            assert(bc =~= b + c);
        }
        assert(push_path(ab, c) =~= push_path(a, bc));
    }
}

/// A name followed by `..` in the middle of components folds away.
pub(crate) proof fn lemma_fold_skip_cancel(cb: Seq<Comp>, n: Seq<char>, b: Seq<Comp>)
    ensures
        normalize_comps(cb + seq![Comp::Normal(n), Comp::Parent] + b) == normalize_comps(cb + b),
{
    let two = seq![Comp::Normal(n), Comp::Parent];
    let e = Seq::<Comp>::empty();
    lemma_norm_is_fold(cb + two + b);
    lemma_norm_is_fold(cb + b);
    lemma_fold_concat(e, cb + two, b);
    lemma_fold_concat(e, cb, two);
    lemma_fold_cancel(fold_from(e, cb), n);
    lemma_fold_concat(e, cb, b);
}

/// The runs of `n/../q` are `n`, `..`, then the runs of `q`.
pub(crate) proof fn lemma_runs_cancel_path(n: Seq<char>, q: Seq<char>)
    requires
        valid_name(n),
    ensures
        body(runs(n + seq!['/', '.', '.', '/'] + q)) == seq![Comp::Normal(n), Comp::Parent] + body(
            runs(q),
        ),
{
    let dd = seq!['.', '.'];
    let x = n + seq!['/', '.', '.', '/'] + q;
    assert(x =~= n.push('/') + (dd.push('/') + q));
    lemma_runs_concat(n, dd.push('/') + q);
    lemma_runs_concat(dd, q);
    assert(no_sep(dd));
    lemma_runs_name(n);
    lemma_runs_name(dd);
    let rx = seq![n, dd] + runs(q);
    assert(runs(x) =~= rx);
    lemma_body_concat(seq![n, dd], runs(q));
    assert(seq![n, dd].drop_last() =~= seq![n]);
    assert(seq![n, dd].last() == dd);
    assert(seq![n].drop_last() =~= Seq::<Seq<char>>::empty());
    assert(seq![n].last() == n);
    assert(classify(n) =~= seq![Comp::Normal(n)]);
    assert(dd != seq!['.']) by {
        assert(dd.len() != seq!['.'].len());
    }
    assert(classify(dd) =~= seq![Comp::Parent]);
    assert(body(Seq::<Seq<char>>::empty()) =~= Seq::<Comp>::empty());
    assert(body(seq![n]) =~= seq![Comp::Normal(n)]);
    assert(body(seq![n, dd]) =~= seq![Comp::Normal(n), Comp::Parent]);
}

/// A name joined with a relative path: its components are the name followed
/// by the components of the path's runs, and it is relative itself.
pub(crate) proof fn lemma_join_name(tag: Seq<char>, file: Seq<char>)
    requires
        valid_name(tag),
        file.len() == 0 || file[0] != '/',
    ensures
        components(push_path(tag, file)) == seq![Comp::Normal(tag)] + body(runs(file)),
        push_path(tag, file).len() > 0,
        push_path(tag, file)[0] != '/',
{
    let c = Comp::Normal(tag);
    let j = push_path(tag, file);
    lemma_name_components(c);
    assert(j =~= tag.push('/') + file);
    assert(j[0] == tag[0]);
    lemma_runs_concat(tag, file);
    lemma_leading_extend(tag, file);
    lemma_runs_name(tag);
    lemma_body_concat(seq![tag], runs(file));
    assert(seq![tag].drop_last() =~= Seq::<Seq<char>>::empty());
    assert(seq![tag].last() == tag);
    assert(body(Seq::<Seq<char>>::empty()) =~= Seq::<Comp>::empty());
    assert(classify(tag) =~= seq![c]);
    assert(body(seq![tag]) =~= seq![c]);
    lemma_scan_name(tag);
    assert(leading(tag) =~= Seq::<Comp>::empty()) by {
        if leading(tag).len() > 0 {
            assert(components(tag)[0] == leading(tag)[0]);
        }
    }
}

/// A path component held in memory.
pub enum Component {
    RootDir,
    CurDir,
    ParentDir,
    Normal(Vec<char>),
}

impl View for Component {
    type V = Comp;

    open spec fn view(&self) -> Comp {
        match self {
            Component::RootDir => Comp::Root,
            Component::CurDir => Comp::Cur,
            Component::ParentDir => Comp::Parent,
            Component::Normal(v) => Comp::Normal(v@),
        }
    }
}

/// The components that a vector of in-memory components stands for.
pub open spec fn comps_view(v: Seq<Component>) -> Seq<Comp> {
    v.map_values(|c: Component| c@)
}

proof fn lemma_comps_view_push(v: Seq<Component>, c: Component)
    ensures
        comps_view(v.push(c)) == comps_view(v).push(c@),
{
    assert(comps_view(v.push(c)) =~= comps_view(v).push(c@));
}

proof fn lemma_body_push(rs: Seq<Seq<char>>, r: Seq<char>)
    ensures
        body(rs.push(r)) == body(rs) + classify(r),
{
    assert(rs.push(r).drop_last() =~= rs);
}

/// The component that one non-empty run between separators stands for.
fn classify_run(run: Vec<char>) -> (r: Option<Component>)
    ensures
        classify(run@) == match r {
            Some(c) => seq![c@],
            None => Seq::<Comp>::empty(),
        },
{
    if run.len() == 1 && run[0] == '.' {
        assert(run@ =~= seq!['.']);
        None
    } else if run.len() == 2 && run[0] == '.' && run[1] == '.' {
        assert(run@ =~= seq!['.', '.']);
        Some(Component::ParentDir)
    } else {
        assert(run@ != seq!['.']) by {
            if run@.len() == 1 {
                assert(run@[0] != seq!['.'][0]);
            }
        }
        assert(run@ != seq!['.', '.']) by {
            if run@.len() == 2 {
                assert(run@[0] != seq!['.', '.'][0] || run@[1] != seq!['.', '.'][1]);
            }
        }
        Some(Component::Normal(run))
    }
}

/// Splits a path into its components.
pub fn components_of(s: &Vec<char>) -> (r: Vec<Component>)
    ensures
        comps_view(r@) == components(s@),
{
    let n = s.len();
    let mut out: Vec<Component> = Vec::new();
    if n > 0 && s[0] == '/' {
        out.push(Component::RootDir);
    } else if n > 0 && s[0] == '.' && (n == 1 || s[1] == '/') {
        out.push(Component::CurDir);
    }
    let ghost lead = comps_view(out@);
    assert(lead =~= leading(s@));
    let mut cur: Vec<char> = Vec::new();
    let mut i: usize = 0;
    assert(s@.take(0) =~= Seq::<char>::empty());
    assert(comps_view(out@) =~= lead + body(scan(s@.take(0)).0));
    while i < n
        invariant
            n == s@.len(),
            i <= n,
            comps_view(out@) == lead + body(scan(s@.take(i as int)).0),
            cur@ == scan(s@.take(i as int)).1,
        decreases n - i,
    {
        let c = s[i];
        let ghost prev = scan(s@.take(i as int));
        assert(s@.take(i + 1).drop_last() =~= s@.take(i as int));
        assert(s@.take(i + 1).last() == c);
        if c == '/' {
            if cur.len() > 0 {
                let run = cur;
                cur = Vec::new();
                let cl = classify_run(run);
                proof {
                    lemma_body_push(prev.0, prev.1);
                }
                match cl {
                    Some(comp) => {
                        proof {
                            lemma_comps_view_push(out@, comp);
                        }
                        out.push(comp);
                    },
                    None => {},
                }
                assert(comps_view(out@) =~= lead + body(scan(s@.take(i + 1)).0));
            }
        } else {
            cur.push(c);
        }
        i = i + 1;
    }
    assert(s@.take(n as int) =~= s@);
    if cur.len() > 0 {
        let ghost st = scan(s@);
        let cl = classify_run(cur);
        proof {
            lemma_body_push(st.0, st.1);
        }
        match cl {
            Some(comp) => {
                proof {
                    lemma_comps_view_push(out@, comp);
                }
                out.push(comp);
            },
            None => {},
        }
    }
    assert(comps_view(out@) =~= components(s@));
    out
}


/// A copy of an in-memory component.
fn copy_component(c: &Component) -> (r: Component)
    ensures
        r@ == c@,
{
    match c {
        Component::RootDir => Component::RootDir,
        Component::CurDir => Component::CurDir,
        Component::ParentDir => Component::ParentDir,
        Component::Normal(v) => Component::Normal(copy_chars(v)),
    }
}

/// Folds the components of a path: `..` removes the component before it
/// where there is one that is not the root, and stays otherwise.
pub fn normalize_components(cs: &Vec<Component>) -> (r: Vec<Component>)
    ensures
        comps_view(r@) == normalize_comps(comps_view(cs@)),
{
    let mut stack: Vec<Component> = Vec::new();
    let mut i: usize = 0;
    assert(comps_view(cs@).take(0) =~= Seq::<Comp>::empty());
    while i < cs.len()
        invariant
            i <= cs@.len(),
            comps_view(stack@) == normalize_comps(comps_view(cs@).take(i as int)),
        decreases cs@.len() - i,
    {
        let ghost before = comps_view(stack@);
        assert(comps_view(cs@).take(i + 1).drop_last() =~= comps_view(cs@).take(i as int));
        assert(comps_view(cs@).take(i + 1).last() == cs@[i as int]@);
        match &cs[i] {
            Component::RootDir => {
                stack = Vec::new();
                stack.push(Component::RootDir);
                assert(comps_view(stack@) =~= seq![Comp::Root]);
            },
            Component::ParentDir => {
                let n = stack.len();
                let poppable = n > 0 && match &stack[n - 1] {
                    Component::RootDir => false,
                    _ => true,
                };
                if poppable {
                    stack.pop();
                    assert(comps_view(stack@) =~= before.drop_last());
                } else {
                    proof {
                        lemma_comps_view_push(stack@, Component::ParentDir);
                    }
                    stack.push(Component::ParentDir);
                }
            },
            c => {
                let d = copy_component(c);
                proof {
                    lemma_comps_view_push(stack@, d);
                }
                stack.push(d);
            },
        }
        i = i + 1;
    }
    assert(comps_view(cs@).take(cs@.len() as int) =~= comps_view(cs@));
    stack
}

/// Appends `p` to the path buffer `buf` as `PathBuf::push` does on Unix.
pub fn push_path_chars(buf: &mut Vec<char>, p: &Vec<char>)
    ensures
        final(buf)@ == push_path(old(buf)@, p@),
{
    if p.len() > 0 && p[0] == '/' {
        buf.clear();
        extend_chars(buf, p);
        assert(buf@ =~= p@);
    } else {
        let n = buf.len();
        if n > 0 && buf[n - 1] != '/' {
            buf.push('/');
        }
        extend_chars(buf, p);
    }
}

/// The text of one component.
fn component_text(c: &Component) -> (t: Vec<char>)
    ensures
        t@ == comp_text(c@),
{
    match c {
        Component::RootDir => {
            let t = vec!['/'];
            assert(t@ =~= seq!['/']);
            t
        },
        Component::CurDir => {
            let t = vec!['.'];
            assert(t@ =~= seq!['.']);
            t
        },
        Component::ParentDir => {
            let t = vec!['.', '.'];
            assert(t@ =~= seq!['.', '.']);
            t
        },
        Component::Normal(v) => copy_chars(v),
    }
}

/// The text of a sequence of components, pushed in turn onto an empty buffer.
pub fn render_components(cs: &Vec<Component>) -> (r: Vec<char>)
    ensures
        r@ == render(comps_view(cs@)),
{
    let mut buf: Vec<char> = Vec::new();
    let mut i: usize = 0;
    assert(comps_view(cs@).take(0) =~= Seq::<Comp>::empty());
    while i < cs.len()
        invariant
            i <= cs@.len(),
            buf@ == render(comps_view(cs@).take(i as int)),
        decreases cs@.len() - i,
    {
        assert(comps_view(cs@).take(i + 1).drop_last() =~= comps_view(cs@).take(i as int));
        let t = component_text(&cs[i]);
        push_path_chars(&mut buf, &t);
        i = i + 1;
    }
    assert(comps_view(cs@).take(cs@.len() as int) =~= comps_view(cs@));
    buf
}

/// The normal form of a path.
pub fn normalize_chars(s: &Vec<char>) -> (r: Vec<char>)
    ensures
        r@ == normalized(s@),
{
    let cs = components_of(s);
    let st = normalize_components(&cs);
    let mut r = render_components(&st);
    let n = s.len();
    if n > 0 && s[n - 1] == '/' {
        let empty: Vec<char> = Vec::new();
        push_path_chars(&mut r, &empty);
    }
    r
}

/// Whether two in-memory components are the same component.
fn component_eq(a: &Component, b: &Component) -> (r: bool)
    ensures
        r == (a@ == b@),
{
    match (a, b) {
        (Component::RootDir, Component::RootDir) => true,
        (Component::CurDir, Component::CurDir) => true,
        (Component::ParentDir, Component::ParentDir) => true,
        (Component::Normal(x), Component::Normal(y)) => chars_eq(x, y),
        _ => false,
    }
}

/// `Path::starts_with`: whether the components of `base` are the first
/// components of `path`.
pub fn starts_with_chars(path: &Vec<char>, base: &Vec<char>) -> (r: bool)
    ensures
        r == path_starts_with(path@, base@),
{
    let pc = components_of(path);
    let bc = components_of(base);
    let ghost p = comps_view(pc@);
    let ghost b = comps_view(bc@);
    if bc.len() > pc.len() {
        return false;
    }
    let mut i: usize = 0;
    while i < bc.len()
        invariant
            p == comps_view(pc@),
            b == comps_view(bc@),
            p == components(path@),
            b == components(base@),
            bc@.len() <= pc@.len(),
            i <= bc@.len(),
            forall|j: int| 0 <= j < i ==> p[j] == b[j],
        decreases bc@.len() - i,
    {
        assert(p[i as int] == pc@[i as int]@);
        assert(b[i as int] == bc@[i as int]@);
        if !component_eq(&pc[i], &bc[i]) {
            assert(p[i as int] != b[i as int]);
            assert(p.take(b.len() as int)[i as int] == p[i as int]);
            return false;
        }
        i = i + 1;
    }
    assert(p.take(b.len() as int) =~= b);
    true
}

} // verus!
