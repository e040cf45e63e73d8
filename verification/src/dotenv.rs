//! Turning the contents of one `.env` file into its variables and
//! warnings. Never hard-fails: an unreadable or malformed file yields an
//! empty (or partial) map plus warnings, so one bad layer never blocks the
//! other layers.
use vstd::prelude::*;
use indexmap::IndexMap;
use crate::envmap::{VarPairs, index_map_entries, pairs_insert, map_new, map_insert};

verus! {

/// Result of parsing a single `.env` file.
pub struct ParsedEnv {
    pub vars: IndexMap<String, String>,
    pub warnings: Vec<String>,
}

/// One item the `.env` parser yields: a key/value pair or an error text.
pub type ItemView = Result<(Seq<char>, Seq<char>), Seq<char>>;

pub open spec fn item_view(r: Result<(String, String), String>) -> ItemView {
    match r {
        Ok((k, v)) => Ok((k@, v@)),
        Err(e) => Err(e@),
    }
}

pub open spec fn strings_view(v: Seq<String>) -> Seq<Seq<char>> {
    v.map_values(|s: String| s@)
}

/// The variables the items give, later pairs overriding earlier ones.
pub open spec fn parsed_vars(items: Seq<ItemView>) -> VarPairs
    decreases items.len(),
{
    if items.len() == 0 {
        Seq::empty()
    } else {
        match items.last() {
            Ok(kv) => pairs_insert(parsed_vars(items.drop_last()), kv.0, kv.1),
            Err(_) => parsed_vars(items.drop_last()),
        }
    }
}

/// One warning per failed item, naming the file.
pub open spec fn parsed_warnings(path: Seq<char>, items: Seq<ItemView>) -> Seq<Seq<char>>
    decreases items.len(),
{
    if items.len() == 0 {
        Seq::empty()
    } else {
        match items.last() {
            Ok(_) => parsed_warnings(path, items.drop_last()),
            Err(e) => parsed_warnings(path, items.drop_last()).push(path + ": "@ + e),
        }
    }
}

/// The items dotenvy's parser yields for file contents holding no `$`.
pub uninterp spec fn dotenv_items_of(bytes: Seq<u8>) -> Seq<ItemView>;

/// Calls `dotenvy::from_read_iter` on the file's bytes and collects each
/// item, rendering a failed line's error as text. The parser substitutes
/// `$VAR` references from the process environment, so the items depend on
/// more than the bytes where the bytes hold a `$` (byte 36); only for
/// contents without one are they claimed to be a function of the bytes
/// alone.
#[verifier::external_body]
fn dotenv_items(contents: &[u8]) -> (items: Vec<Result<(String, String), String>>)
    ensures
        !contents@.contains(36u8) ==> items@.map_values(|i: Result<(String, String), String>| item_view(i)) == dotenv_items_of(contents@),
{
    dotenvy::from_read_iter(contents).map(|item| item.map_err(|e| e.to_string())).collect()
}

/// `a`, then ": ", then `b`.
fn labelled(a: &str, b: &str) -> (r: String)
    ensures
        r@ == a@ + ": "@ + b@,
{
    let mut s = String::from_str(a);
    s.append(": ");
    s.append(b);
    s
}

/// Collects parser items into variables (later pairs win) and warnings.
pub fn collect_items(path: &str, items: Vec<Result<(String, String), String>>) -> (r: ParsedEnv)
    ensures
        index_map_entries(r.vars) == parsed_vars(items@.map_values(|i: Result<(String, String), String>| item_view(i))),
        strings_view(r.warnings@) == parsed_warnings(path@, items@.map_values(|i: Result<(String, String), String>| item_view(i))),
{
    let ghost iv = items@.map_values(|i: Result<(String, String), String>| item_view(i));
    let mut vars = map_new();
    let mut warnings: Vec<String> = Vec::new();
    let mut i: usize = 0;
    while i < items.len()
        invariant
            iv == items@.map_values(|i: Result<(String, String), String>| item_view(i)),
            i <= items.len(),
            index_map_entries(vars) == parsed_vars(iv.take(i as int)),
            strings_view(warnings@) == parsed_warnings(path@, iv.take(i as int)),
        decreases items.len() - i,
    {
        let ghost before = warnings@;
        match &items[i] {
            Ok((k, v)) => {
                map_insert(&mut vars, k.clone(), v.clone());
            },
            Err(e) => {
                warnings.push(labelled(path, e.as_str()));
                assert(strings_view(warnings@) =~= strings_view(before).push(warnings@.last()@));
            },
        }
        proof {
            assert(iv.take(i + 1).drop_last() =~= iv.take(i as int));
            assert(iv.take(i + 1).last() == item_view(items@[i as int]));
        }
        i = i + 1;
    }
    assert(iv.take(items.len() as int) =~= iv);
    ParsedEnv { vars, warnings }
}

/// Parses one `.env` file given what reading it gave: its bytes, or the
/// text of the read error (which becomes the file's only warning).
pub fn parse_file(path: &str, contents: Result<Vec<u8>, String>) -> (r: ParsedEnv)
    ensures
        contents matches Err(msg) ==> index_map_entries(r.vars).len() == 0
            && strings_view(r.warnings@) == seq![path@ + ": "@ + msg@],
        contents is Ok ==> exists|items: Seq<ItemView>| #[trigger] parsed_vars(items) == index_map_entries(r.vars)
            && strings_view(r.warnings@) == parsed_warnings(path@, items),
        contents matches Ok(b) ==> (!b@.contains(36u8) ==> index_map_entries(r.vars) == parsed_vars(dotenv_items_of(b@))
            && strings_view(r.warnings@) == parsed_warnings(path@, dotenv_items_of(b@))),
{
    match contents {
        Err(msg) => {
            let mut warnings: Vec<String> = Vec::new();
            warnings.push(labelled(path, msg.as_str()));
            assert(strings_view(warnings@) =~= seq![path@ + ": "@ + msg@]);
            ParsedEnv { vars: map_new(), warnings }
        },
        Ok(bytes) => {
            let items = dotenv_items(bytes.as_slice());
            let ghost iv = items@.map_values(|i: Result<(String, String), String>| item_view(i));
            let r = collect_items(path, items);
            assert(parsed_vars(iv) == index_map_entries(r.vars));
            r
        },
    }
}

} // verus!
