//! The server's configuration, checked from the values of its variables.
use vstd::prelude::*;
use crate::text::opt_view;

verus! {

/// The server's configuration.
#[derive(Debug)]
pub struct Config {
    pub api_token: String,
    pub storage_path: String,
    pub storage_type: String,
}

/// The items joined with `sep` between each two.
pub open spec fn join_with(items: Seq<Seq<char>>, sep: Seq<char>) -> Seq<char>
    decreases items.len(),
{
    if items.len() == 0 {
        Seq::empty()
    } else if items.len() == 1 {
        items[0]
    } else {
        join_with(items.drop_last(), sep) + sep + items.last()
    }
}

/// The names of the variables that have no value, in the order
/// `API_TOKEN`, `STORAGE_PATH`, `STORAGE_TYPE`.
pub open spec fn missing_names(has_token: bool, has_path: bool, has_type: bool) -> Seq<Seq<char>> {
    (if has_token { Seq::empty() } else { seq!["API_TOKEN"@] }) + (if has_path {
        Seq::empty()
    } else {
        seq!["STORAGE_PATH"@]
    }) + (if has_type { Seq::empty() } else { seq!["STORAGE_TYPE"@] })
}

/// The message for missing variables.
pub open spec fn missing_message(names: Seq<Seq<char>>) -> Seq<char> {
    "Missing environment variables: "@ + join_with(names, ", "@)
}

/// The storage types the server supports.
pub open spec fn valid_storage_types() -> Seq<Seq<char>> {
    seq!["filesystem"@]
}

/// The message for a storage type that is not supported.
pub open spec fn invalid_type_message(storage_type: Seq<char>) -> Seq<char> {
    "Invalid storage type: "@ + storage_type + ", allowed values "@ + join_with(
        valid_storage_types(),
        ", "@,
    )
}

/// Each variable is named in the list of missing variables exactly when it
/// has no value, each at most once, so the list is empty exactly when all
/// three have values.
pub proof fn law_missing_names(has_token: bool, has_path: bool, has_type: bool)
    ensures
        missing_names(has_token, has_path, has_type).contains("API_TOKEN"@) <==> !has_token,
        missing_names(has_token, has_path, has_type).contains("STORAGE_PATH"@) <==> !has_path,
        missing_names(has_token, has_path, has_type).contains("STORAGE_TYPE"@) <==> !has_type,
        missing_names(has_token, has_path, has_type).len() == (if has_token {
            0int
        } else {
            1int
        }) + (if has_path {
            0int
        } else {
            1int
        }) + (if has_type {
            0int
        } else {
            1int
        }),
{
    reveal_strlit("API_TOKEN");
    reveal_strlit("STORAGE_PATH");
    reveal_strlit("STORAGE_TYPE");
    let a = "API_TOKEN"@;
    let p = "STORAGE_PATH"@;
    let t = "STORAGE_TYPE"@;
    assert(a != p) by {
        assert(a.len() != p.len());
    }
    assert(a != t) by {
        assert(a.len() != t.len());
    }
    assert(p != t) by {
        assert(p[8] != t[8]);
    }
    let m = missing_names(has_token, has_path, has_type);
    if !has_token {
        assert(m[0] == a);
    }
    if !has_path {
        assert(m[if has_token { 0int } else { 1int }] == p);
    }
    if !has_type {
        assert(m[m.len() - 1] == t);
    }
    assert(m.contains(a) ==> !has_token) by {
        if m.contains(a) {
            let k = choose|k: int| 0 <= k < m.len() && m[k] == a;
        }
    }
    assert(m.contains(p) ==> !has_path) by {
        if m.contains(p) {
            let k = choose|k: int| 0 <= k < m.len() && m[k] == p;
        }
    }
    assert(m.contains(t) ==> !has_type) by {
        if m.contains(t) {
            let k = choose|k: int| 0 <= k < m.len() && m[k] == t;
        }
    }
}

/// Joining: one item stands alone, and each further item follows the
/// separator.
pub proof fn law_join_with(items: Seq<Seq<char>>, x: Seq<char>, sep: Seq<char>)
    ensures
        join_with(seq![x], sep) == x,
        items.len() > 0 ==> join_with(items.push(x), sep) == join_with(items, sep) + sep + x,
{
    assert(items.push(x).drop_last() =~= items);
}

/// The messages: the missing-variable message is its fixed text followed by
/// the names joined with `, `; the invalid-type message holds the given type
/// verbatim after its fixed text, and ends naming `filesystem` as the one
/// allowed value.
pub proof fn law_config_messages(names: Seq<Seq<char>>, storage_type: Seq<char>)
    ensures
        missing_message(names).take(31) == "Missing environment variables: "@,
        missing_message(names).skip(31) == join_with(names, ", "@),
        invalid_type_message(storage_type).take(22) == "Invalid storage type: "@,
        invalid_type_message(storage_type).subrange(22, 22 + storage_type.len() as int) == storage_type,
        invalid_type_message(storage_type).skip(22 + storage_type.len() as int)
            == ", allowed values filesystem"@,
        valid_storage_types() == seq!["filesystem"@],
{
    reveal_strlit("Missing environment variables: ");
    reveal_strlit("Invalid storage type: ");
    reveal_strlit(", allowed values ");
    reveal_strlit("filesystem");
    reveal_strlit(", allowed values filesystem");
    assert(missing_message(names).take(31) =~= "Missing environment variables: "@);
    assert(missing_message(names).skip(31) =~= join_with(names, ", "@));
    let m = invalid_type_message(storage_type);
    assert(join_with(valid_storage_types(), ", "@) == "filesystem"@);
    assert(m.take(22) =~= "Invalid storage type: "@);
    assert(m.subrange(22, 22 + storage_type.len() as int) =~= storage_type);
    assert(m.skip(22 + storage_type.len() as int) =~= ", allowed values filesystem"@);
}

/// Joins string slices with `sep`.
fn join_strs(items: &Vec<&str>, sep: &str) -> (r: String)
    ensures
        r@ == join_with(items@.map_values(|s: &str| s@), sep@),
{
    let ghost views = items@.map_values(|s: &str| s@);
    let mut r = String::new();
    let mut i: usize = 0;
    assert(views.take(0) =~= Seq::<Seq<char>>::empty());
    while i < items.len()
        invariant
            views == items@.map_values(|s: &str| s@),
            i <= items@.len(),
            r@ == join_with(views.take(i as int), sep@),
        decreases items@.len() - i,
    {
        assert(views.take(i + 1).drop_last() =~= views.take(i as int));
        assert(views.take(i + 1).last() == items@[i as int]@);
        if i > 0 {
            r.append(sep);
        } else {
            assert(r@ =~= Seq::<char>::empty());
            assert(views.take(1)[0] == items@[0]@);
        }
        r.append(items[i]);
        proof {
            if i == 0 {
                assert(r@ =~= items@[0]@);
            }
        }
        i = i + 1;
    }
    assert(views.take(items@.len() as int) =~= views);
    r
}

impl Config {
    /// The configuration from the values of `API_TOKEN`, `STORAGE_PATH` and
    /// `STORAGE_TYPE` (`None` where a variable has no value). Every missing
    /// variable is named in one error; a storage type other than
    /// `filesystem` is refused.
    pub fn from_vars(
        api_token: Option<String>,
        storage_path: Option<String>,
        storage_type: Option<String>,
    ) -> (r: Result<Config, String>)
        ensures
            ({
                let missing = missing_names(
                    api_token is Some,
                    storage_path is Some,
                    storage_type is Some,
                );
                if missing.len() > 0 {
                    r matches Err(m) && m@ == missing_message(missing)
                } else if opt_view(storage_type)->0 != "filesystem"@ {
                    r matches Err(m) && m@ == invalid_type_message(opt_view(storage_type)->0)
                } else {
                    r matches Ok(c) && Some(c.api_token@) == opt_view(api_token) && Some(
                        c.storage_path@,
                    ) == opt_view(storage_path) && Some(c.storage_type@) == opt_view(
                        storage_type,
                    )
                }
            }),
    {
        let mut missing: Vec<&str> = Vec::new();
        if api_token.is_none() {
            missing.push("API_TOKEN");
        }
        if storage_path.is_none() {
            missing.push("STORAGE_PATH");
        }
        if storage_type.is_none() {
            missing.push("STORAGE_TYPE");
        }
        let ghost names = missing_names(
            api_token is Some,
            storage_path is Some,
            storage_type is Some,
        );
        assert(missing@.map_values(|s: &str| s@) =~= names);
        if missing.len() > 0 {
            let mut m = String::from_str("Missing environment variables: ");
            let joined = join_strs(&missing, ", ");
            m.append(joined.as_str());
            return Err(m);
        }
        let api_token = match api_token {
            Some(t) => t,
            None => String::new(),
        };
        let storage_path = match storage_path {
            Some(p) => p,
            None => String::new(),
        };
        let storage_type = match storage_type {
            Some(t) => t,
            None => String::new(),
        };
        let valid: Vec<&str> = vec!["filesystem"];
        assert(valid@.map_values(|s: &str| s@) =~= valid_storage_types());
        let filesystem = String::from_str("filesystem");
        if !(storage_type == filesystem) {
            let mut m = String::from_str("Invalid storage type: ");
            m.append(storage_type.as_str());
            m.append(", allowed values ");
            let allowed = join_strs(&valid, ", ");
            m.append(allowed.as_str());
            return Err(m);
        }
        Ok(Config { api_token, storage_path, storage_type })
    }
}

} // verus!
