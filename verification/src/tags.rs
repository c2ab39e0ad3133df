//! The list of tags: the directories directly inside the storage directory.
use vstd::prelude::*;
use crate::config::Config;
use crate::status::Status;
use crate::storage::{StoragePath, is_canonical, result_view, spec_tag_dir};

verus! {

/// The answer of the tag list.
pub struct TagsResponse {
    pub tags: Vec<String>,
}

/// What the listing of the storage directory tells of one entry: whether it
/// is a directory (`None` where its type could not be read) and its name
/// (`None` where the name is not UTF-8).
pub struct DirEntryInfo {
    pub is_dir: Option<bool>,
    pub name: Option<String>,
}

/// The tag an entry of the listing gives (`None` for an entry that could not
/// be read): the name of a directory whose name is UTF-8.
pub open spec fn entry_tag(e: Option<DirEntryInfo>) -> Option<Seq<char>> {
    match e {
        Some(d) => match (d.is_dir, d.name) {
            (Some(true), Some(n)) => Some(n@),
            _ => None,
        },
        None => None,
    }
}

/// The tags that the entries of a listing give, in listing order.
pub open spec fn listed_tags(es: Seq<Option<DirEntryInfo>>) -> Seq<Seq<char>>
    decreases es.len(),
{
    if es.len() == 0 {
        Seq::empty()
    } else {
        listed_tags(es.drop_last()) + match entry_tag(es.last()) {
            Some(t) => seq![t],
            None => Seq::empty(),
        }
    }
}

/// The texts of a vector of strings.
pub open spec fn strings_view(v: Seq<String>) -> Seq<Seq<char>> {
    v.map_values(|s: String| s@)
}

/// The tags are the full names of the listing's readable directories with
/// UTF-8 names, in listing order: an empty listing gives none, and one more
/// entry adds its name unchanged exactly when it is such a directory.
pub proof fn law_tags_listing(es: Seq<Option<DirEntryInfo>>, e: Option<DirEntryInfo>)
    ensures
        listed_tags(Seq::empty()) == Seq::<Seq<char>>::empty(),
        listed_tags(es.push(e)) == listed_tags(es) + match e {
            Some(d) => if d.is_dir == Some(true) && d.name is Some {
                seq![d.name->0@]
            } else {
                Seq::<Seq<char>>::empty()
            },
            None => Seq::<Seq<char>>::empty(),
        },
{
    assert(es.push(e).drop_last() =~= es);
    match e {
        Some(d) => match (d.is_dir, d.name) {
            (Some(true), Some(n)) => {},
            _ => {},
        },
        None => {},
    }
}

/// Whether the entry is a directory named `t`.
pub open spec fn is_dir_named(e: Option<DirEntryInfo>, t: Seq<char>) -> bool {
    match e {
        Some(d) => d.is_dir == Some(true) && match d.name {
            Some(n) => n@ == t,
            None => false,
        },
        None => false,
    }
}

/// A listed tag is the name of a directory entry of the listing, and the
/// number of tags never exceeds the number of entries.
pub proof fn law_tags_are_entry_names(es: Seq<Option<DirEntryInfo>>)
    ensures
        listed_tags(es).len() <= es.len(),
        forall|i: int|
            #![trigger listed_tags(es)[i]]
            0 <= i < listed_tags(es).len() ==> exists|j: int|
                0 <= j < es.len() && is_dir_named(#[trigger] es[j], listed_tags(es)[i]),
    decreases es.len(),
{
    if es.len() > 0 {
        let pre = es.drop_last();
        law_tags_are_entry_names(pre);
        law_tags_listing(pre, es.last());
        assert(pre.push(es.last()) =~= es);
        let lt = listed_tags(es);
        let lp = listed_tags(pre);
        assert forall|i: int| #![trigger lt[i]] 0 <= i < lt.len() implies exists|j: int|
            0 <= j < es.len() && is_dir_named(#[trigger] es[j], lt[i]) by {
            if i < lp.len() {
                assert(lt[i] == lp[i]);
                let j = choose|j: int| 0 <= j < pre.len() && is_dir_named(#[trigger] pre[j], lp[i]);
                assert(es[j] == pre[j]);
            } else {
                assert(es[es.len() - 1] == es.last());
            }
        }
    }
}

/// The tags, given the listing of the storage directory (`None` where the
/// storage directory does not exist): no tags without a storage directory.
pub fn tags_list(listing: Option<Vec<Option<DirEntryInfo>>>) -> (r: TagsResponse)
    ensures
        strings_view(r.tags@) == match listing {
            None => Seq::<Seq<char>>::empty(),
            Some(es) => listed_tags(es@),
        },
{
    let entries = match listing {
        None => {
            let tags: Vec<String> = Vec::new();
            assert(strings_view(tags@) =~= Seq::<Seq<char>>::empty());
            return TagsResponse { tags };
        },
        Some(es) => es,
    };
    let mut tags: Vec<String> = Vec::new();
    let mut i: usize = 0;
    assert(entries@.take(0) =~= Seq::<Option<DirEntryInfo>>::empty());
    assert(strings_view(tags@) =~= Seq::<Seq<char>>::empty());
    while i < entries.len()
        invariant
            i <= entries@.len(),
            strings_view(tags@) == listed_tags(entries@.take(i as int)),
        decreases entries@.len() - i,
    {
        assert(entries@.take(i + 1).drop_last() =~= entries@.take(i as int));
        assert(entries@.take(i + 1).last() == entries@[i as int]);
        let ghost before = tags@;
        match &entries[i] {
            Some(d) => match (&d.is_dir, &d.name) {
                (Some(true), Some(n)) => {
                    tags.push(n.clone());
                    assert(strings_view(tags@) =~= strings_view(before).push(n@));
                },
                _ => {
                    assert(strings_view(tags@) =~= strings_view(before) + Seq::<Seq<char>>::empty());
                },
            },
            None => {
                assert(strings_view(tags@) =~= strings_view(before) + Seq::<Seq<char>>::empty());
            },
        }
        i = i + 1;
    }
    assert(entries@.take(entries@.len() as int) =~= entries@);
    TagsResponse { tags }
}


/// The directory to remove for `DELETE /tags/<tag>`: the storage directory
/// joined with `tag`, normalized. An internal server error where the storage
/// directory cannot be canonicalized; a bad request where the normalized path
/// is the storage directory itself or lies outside it (`..`, `.`, an absolute
/// path).
///
/// The file system decides the canonical storage directory; whatever it is,
/// the answer is the one `spec_tag_dir` gives for it.
pub fn delete_tag_path(tag: &str, config: &Config) -> (r: Result<String, Status>)
    ensures
        r == Err::<String, Status>(Status::InternalServerError) || exists|base: Seq<char>|
            is_canonical(base) && result_view(r) == spec_tag_dir(base, tag@),
{
    let storage = match StoragePath::new(config.storage_path.as_str()) {
        Ok(s) => s,
        Err(e) => return Err(e),
    };
    let r = storage.tag_dir(tag);
    assert(is_canonical(storage@) && result_view(r) == spec_tag_dir(storage@, tag@));
    r
}

} // verus!
