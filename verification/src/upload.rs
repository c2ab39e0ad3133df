//! Where uploads go, and what the upload endpoints answer.
use vstd::prelude::*;
use crate::paths::{
    Comp, body, components, law_push_path_assoc, lemma_body_of_path, lemma_join_name,
    lemma_render_prefix, normalized, path_starts_with, push_path, runs, valid_name, body_item,
    leading,
};
use crate::status::Status;
use crate::storage::{
    StoragePath, is_canonical, law_resolve_accepts_descendants, parent_of, parent_path, spec_resolve,
};
use crate::text::{chars_of, string_of};

verus! {

/// Where an upload is written: the resolved path, and the directory that must
/// exist before writing there.
pub struct UploadTarget {
    pub path: String,
    pub dir: String,
}

/// The target of an upload to `location` relative to the storage directory:
/// `location` resolved, and its parent; a bad request where `location`
/// leaves the storage directory, an internal server error where the resolved
/// path has no parent.
pub open spec fn spec_target(base: Seq<char>, location: Seq<char>) -> Result<
    (Seq<char>, Seq<char>),
    Status,
> {
    match spec_resolve(base, location) {
        Err(e) => Err(e),
        Ok(full) => match parent_of(full) {
            None => Err(Status::InternalServerError),
            Some(d) => Ok((full, d)),
        },
    }
}

/// An upload lands in the storage directory, and the directory created for
/// it is the path with its last component removed.
pub proof fn law_target_within_base(base: Seq<char>, location: Seq<char>)
    ensures
        spec_target(base, location) matches Ok((p, d)) ==> path_starts_with(p, base) && components(d)
            == components(p).drop_last(),
{
    if let Ok((p, d)) = spec_target(base, location) {
        lemma_render_prefix(p);
    }
}

/// A file uploaded under a tag lands exactly where the same tag and file name
/// are looked up when served: the normal form of `asset_path`.
pub proof fn law_upload_where_served(base: Seq<char>, tag: Seq<char>, file_name: Seq<char>)
    ensures
        spec_target(base, push_path(tag, file_name)) matches Ok((p, d)) ==> p == normalized(
            push_path(push_path(base, tag), file_name),
        ),
{
    law_push_path_assoc(base, tag, file_name);
}

/// Every upload of a relative file path without `..` under a tag that is a
/// plain name is accepted, whatever characters the names hold: it is stored
/// at the normal form of storage/tag/file, whose components are those of the
/// storage directory, then the tag, then the names of the file path, and the
/// directory created for it holds all its components but the last.
pub proof fn law_upload_accepted(base: Seq<char>, tag: Seq<char>, file_name: Seq<char>)
    requires
        is_canonical(base),
        valid_name(tag),
        file_name.len() == 0 || file_name[0] != '/',
        forall|k: int|
            0 <= k < components(file_name).len() ==> (#[trigger] components(file_name)[k])
                != Comp::Parent,
    ensures
        spec_target(base, push_path(tag, file_name)) matches Ok((p, d)) && p == normalized(
            push_path(push_path(base, tag), file_name),
        ) && components(p) == components(base) + seq![Comp::Normal(tag)] + body(runs(file_name))
            && components(d) == components(p).drop_last(),
{
    let loc = push_path(tag, file_name);
    lemma_join_name(tag, file_name);
    lemma_body_of_path(file_name);
    let bf = body(runs(file_name));
    let l = leading(file_name);
    assert forall|k: int| 0 <= k < components(loc).len() implies (#[trigger] components(loc)[k])
        != Comp::Parent by {
        if k > 0 {
            assert(components(loc)[k] == bf[k - 1]);
            assert(components(file_name)[k - 1 + l.len()] == bf[k - 1]);
        }
    }
    law_resolve_accepts_descendants(base, loc);
    lemma_body_of_path(loc);
    assert(leading(loc).len() == 0) by {
        if leading(loc).len() > 0 {
            assert(components(loc)[0] == leading(loc)[0]);
        }
    }
    assert(body(runs(loc)) =~= seq![Comp::Normal(tag)] + bf);
    let r = normalized(push_path(base, loc));
    let cb = components(base);
    assert(components(r) =~= cb + seq![Comp::Normal(tag)] + bf);
    let cr = components(r);
    assert(cr.len() >= 2) by {
        assert(cb.len() > 0) by {
            assert(base[0] == '/');
        }
    }
    assert(cr.last() != Comp::Root) by {
        let k = cr.len() - 1;
        if k < cb.len() {
            assert(cr[k] == cb[k]);
            assert(cb[k] is Normal);
        } else if k == cb.len() {
            assert(cr[k] == Comp::Normal(tag));
        } else {
            assert(cr[k] == bf[k - cb.len() - 1]);
            assert(body_item(bf[k - cb.len() - 1]));
        }
    }
    lemma_render_prefix(r);
    law_push_path_assoc(base, tag, file_name);
}

/// Every archive upload to a tag that is a plain name is accepted: it is
/// extracted into the storage directory followed by the tag, and the
/// directory created for it is the storage directory.
pub proof fn law_zip_upload_accepted(base: Seq<char>, tag: Seq<char>)
    requires
        is_canonical(base),
        valid_name(tag),
    ensures
        spec_target(base, tag) matches Ok((p, d)) && p == normalized(push_path(base, tag))
            && components(p) == components(base).push(Comp::Normal(tag)) && components(d)
            == components(base),
{
    let c = Comp::Normal(tag);
    crate::paths::lemma_name_components(c);
    assert(forall|k: int|
        0 <= k < components(tag).len() ==> (#[trigger] components(tag)[k]) != Comp::Parent);
    law_resolve_accepts_descendants(base, tag);
    lemma_body_of_path(tag);
    assert(leading(tag).len() == 0) by {
        if leading(tag).len() > 0 {
            assert(components(tag)[0] == leading(tag)[0]);
        }
    }
    assert(body(runs(tag)) =~= seq![c]);
    let r = normalized(push_path(base, tag));
    let cb = components(base);
    assert(cb.len() > 0) by {
        assert(base[0] == '/');
    }
    assert(components(r) =~= cb.push(c));
    assert(components(r).drop_last() =~= cb);
    lemma_render_prefix(r);
}

/// The view of a computed target.
pub open spec fn target_view(r: Result<UploadTarget, Status>) -> Result<
    (Seq<char>, Seq<char>),
    Status,
> {
    match r {
        Ok(t) => Ok((t.path@, t.dir@)),
        Err(e) => Err(e),
    }
}

/// The target for `location` resolved in the storage directory.
fn target_at(storage: &StoragePath, location: &str) -> (r: Result<UploadTarget, Status>)
    ensures
        target_view(r) == spec_target(storage@, location@),
{
    let full = match storage.resolve(location) {
        Ok(p) => p,
        Err(e) => return Err(e),
    };
    match parent_path(full.as_str()) {
        Some(dir) => Ok(UploadTarget { path: full, dir }),
        None => Err(Status::InternalServerError),
    }
}

/// The target of `POST /upload/<tag>/<file_name>`: `file_name` under
/// `tag`, resolved in the storage directory.
pub fn upload_target(storage: &StoragePath, tag: &str, file_name: &str) -> (r: Result<
    UploadTarget,
    Status,
>)
    ensures
        target_view(r) == spec_target(storage@, push_path(tag@, file_name@)),
{
    let mut location = chars_of(tag);
    let f = chars_of(file_name);
    crate::paths::push_path_chars(&mut location, &f);
    let location = string_of(&location);
    target_at(storage, location.as_str())
}

/// The target of `POST /upload/<tag>` with an archive: the directory of
/// `tag`, resolved in the storage directory, into which the archive is
/// extracted.
pub fn zip_upload_target(storage: &StoragePath, tag: &str) -> (r: Result<UploadTarget, Status>)
    ensures
        target_view(r) == spec_target(storage@, tag@),
{
    target_at(storage, tag)
}

/// The decimal digit for `d < 10`.
pub open spec fn digit_char(d: nat) -> char {
    if d == 0 {
        '0'
    } else if d == 1 {
        '1'
    } else if d == 2 {
        '2'
    } else if d == 3 {
        '3'
    } else if d == 4 {
        '4'
    } else if d == 5 {
        '5'
    } else if d == 6 {
        '6'
    } else if d == 7 {
        '7'
    } else if d == 8 {
        '8'
    } else {
        '9'
    }
}

/// The decimal notation of `n`, without leading zeros.
pub open spec fn decimal(n: nat) -> Seq<char>
    decreases n,
{
    if n < 10 {
        seq![digit_char(n)]
    } else {
        decimal(n / 10).push(digit_char(n % 10))
    }
}

/// The value of a decimal digit character (`-1` for any other character).
pub open spec fn digit_value(c: char) -> int {
    if c == '0' {
        0
    } else if c == '1' {
        1
    } else if c == '2' {
        2
    } else if c == '3' {
        3
    } else if c == '4' {
        4
    } else if c == '5' {
        5
    } else if c == '6' {
        6
    } else if c == '7' {
        7
    } else if c == '8' {
        8
    } else if c == '9' {
        9
    } else {
        -1
    }
}

/// The number that a sequence of decimal digits denotes.
pub open spec fn digits_value(s: Seq<char>) -> int
    decreases s.len(),
{
    if s.len() == 0 {
        0
    } else {
        digits_value(s.drop_last()) * 10 + digit_value(s.last())
    }
}

/// The decimal notation of `n` is made of digits only, denotes `n`, and has
/// no leading zero (except for zero itself).
pub proof fn law_decimal(n: nat)
    ensures
        decimal(n).len() > 0,
        forall|i: int| 0 <= i < decimal(n).len() ==> 0 <= #[trigger] digit_value(decimal(n)[i]) < 10,
        digits_value(decimal(n)) == n,
        n > 0 ==> decimal(n)[0] != '0',
    decreases n,
{
    if n < 10 {
        assert(decimal(n) =~= seq![digit_char(n)]);
        assert(seq![digit_char(n)].drop_last() =~= Seq::<char>::empty());
        assert(digit_value(digit_char(n)) == n);
        assert(digits_value(Seq::<char>::empty()) == 0);
    } else {
        law_decimal(n / 10);
        let d = decimal(n / 10);
        let r = d.push(digit_char(n % 10));
        assert(decimal(n) == r);
        assert(r.drop_last() =~= d);
        assert(n == (n / 10) * 10 + n % 10);
        let k = n % 10;
        assert(k < 10);
        assert(digit_value(digit_char(k)) == k);
        assert(digits_value(r) == digits_value(d) * 10 + digit_value(digit_char(k)));
        assert forall|i: int| 0 <= i < r.len() implies 0 <= #[trigger] digit_value(r[i]) < 10 by {
            if i < d.len() {
                assert(r[i] == d[i]);
            }
        }
        assert(r[0] == d[0]);
    }
}

fn digit(d: usize) -> (c: char)
    requires
        d < 10,
    ensures
        c == digit_char(d as nat),
{
    if d == 0 {
        '0'
    } else if d == 1 {
        '1'
    } else if d == 2 {
        '2'
    } else if d == 3 {
        '3'
    } else if d == 4 {
        '4'
    } else if d == 5 {
        '5'
    } else if d == 6 {
        '6'
    } else if d == 7 {
        '7'
    } else if d == 8 {
        '8'
    } else {
        '9'
    }
}

fn push_decimal(n: usize, out: &mut Vec<char>)
    ensures
        final(out)@ == old(out)@ + decimal(n as nat),
    decreases n,
{
    if n >= 10 {
        push_decimal(n / 10, out);
    }
    out.push(digit(n % 10));
    proof {
        if n >= 10 {
            assert(decimal(n as nat) == decimal((n / 10) as nat).push(digit_char((n % 10) as nat)));
        }
    }
    assert(out@ =~= old(out)@ + decimal(n as nat));
}

/// The decimal notation of `n`.
pub fn decimal_string(n: usize) -> (r: String)
    ensures
        r@ == decimal(n as nat),
{
    let mut v: Vec<char> = Vec::new();
    push_decimal(n, &mut v);
    assert(v@ =~= decimal(n as nat));
    string_of(&v)
}

/// The answer after an archive was extracted:
/// `Extracted <count> files to <tag>`.
pub fn extracted_message(count: usize, tag: &str) -> (r: String)
    ensures
        r@ == "Extracted "@ + decimal(count as nat) + " files to "@ + tag@,
{
    let mut r = String::from_str("Extracted ");
    let n = decimal_string(count);
    r.append(n.as_str());
    r.append(" files to ");
    r.append(tag);
    r
}

} // verus!
