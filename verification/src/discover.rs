//! Walking from the working directory up to the filesystem root, naming
//! the `.env` file each directory may hold. Returned root-first (parent
//! before child) so callers can fold left to right with later entries
//! overriding earlier ones.
//!
//! A directory the configuration skips, or one with a vendored component
//! (`node_modules`, `.venv`, ...), is not collected *from* -- the walk still
//! continues past it upward, since a skipped directory in the middle of
//! the chain must not block a legitimate `.env` further up.
use vstd::prelude::*;
use crate::config::{Config, ConfigView, dir_skipped, vendored_component, has_vendored_component};
use crate::paths::{path_joined, path_parent_of, path_join, path_parent};

verus! {

/// Safety valve against pathological parent chains; real filesystems never
/// come close to this depth.
pub const MAX_DEPTH: usize = 512;

pub const ENV_FILE_NAME: &'static str = ".env";

/// Whether `.env` files in `dir` are collected.
pub open spec fn collected_dir(c: ConfigView, dir: Seq<char>) -> bool {
    !dir_skipped(c, dir) && !vendored_component(dir)
}

/// The `.env` paths of the collected directories from `dir` upward,
/// child first, `depth` levels having been walked already.
pub open spec fn walk_up(c: ConfigView, dir: Option<Seq<char>>, depth: int) -> Seq<Seq<char>>
    decreases MAX_DEPTH - depth,
{
    if depth >= MAX_DEPTH || depth < 0 {
        Seq::empty()
    } else {
        match dir {
            None => Seq::empty(),
            Some(d) => (if collected_dir(c, d) {
                seq![path_joined(d, ENV_FILE_NAME@)]
            } else {
                Seq::empty()
            }) + walk_up(c, path_parent_of(d), depth + 1),
        }
    }
}

/// The `.env` file each collected directory from `start` up to the root
/// may hold, root first. `start` should already be canonical (symlinks
/// resolved); which of these files exist is for the caller to check.
pub fn env_file_candidates(start: &str, config: &Config) -> (r: Vec<String>)
    ensures
        r@.map_values(|s: String| s@) == walk_up(config@, Some(start@), 0).reverse(),
{
    let ghost c = config@;
    let ghost all = walk_up(c, Some(start@), 0);
    let mut found: Vec<String> = Vec::new();
    let mut dir: Option<String> = Some(String::from_str(start));
    let mut depth: usize = 0;
    loop
        invariant
            c == config@,
            all == walk_up(c, Some(start@), 0),
            depth <= MAX_DEPTH,
            found@.map_values(|s: String| s@) + walk_up(c, match dir {
                Some(d) => Some(d@),
                None => None,
            }, depth as int) == all,
        ensures
            found@.map_values(|s: String| s@) == all,
        decreases MAX_DEPTH - depth,
    {
        if depth >= MAX_DEPTH {
            assert(found@.map_values(|s: String| s@) + Seq::<Seq<char>>::empty() =~= found@.map_values(|s: String| s@));
            break;
        }
        let d: String = match &dir {
            Some(d) => String::from_str(d.as_str()),
            None => {
                assert(found@.map_values(|s: String| s@) + Seq::<Seq<char>>::empty() =~= found@.map_values(|s: String| s@));
                break;
            },
        };
        let ghost before = found@.map_values(|s: String| s@);
        let keep = !config.is_skipped_dir(d.as_str()) && !has_vendored_component(d.as_str());
        if keep {
            let candidate = path_join(d.as_str(), ENV_FILE_NAME);
            found.push(candidate);
        }
        let parent = path_parent(d.as_str());
        proof {
            let rest = walk_up(c, path_parent_of(d@), depth + 1);
            let head = if collected_dir(c, d@) { seq![path_joined(d@, ENV_FILE_NAME@)] } else { Seq::<Seq<char>>::empty() };
            assert(walk_up(c, Some(d@), depth as int) == head + rest);
            assert(found@.map_values(|s: String| s@) =~= before + head);
            assert(found@.map_values(|s: String| s@) + rest =~= before + (head + rest));
        }
        dir = parent;
        depth = depth + 1;
    }
    let ghost fv = found@.map_values(|s: String| s@);
    assert(fv == all);
    let mut out: Vec<String> = Vec::new();
    while found.len() > 0
        invariant
            found@.map_values(|s: String| s@) == fv.take(found@.len() as int),
            found@.len() <= fv.len(),
            out@.map_values(|s: String| s@) == fv.skip(found@.len() as int).reverse(),
        decreases found.len(),
    {
        let ghost n = found@.len();
        let ghost fbefore = found@;
        let s = found.pop().unwrap();
        proof {
            assert(s == fbefore[n - 1]);
            assert(fbefore.map_values(|s: String| s@)[n - 1] == s@);
            assert(fv.take(n as int)[n - 1] == fv[n - 1]);
        }
        let ghost old_out = out@.map_values(|s: String| s@);
        out.push(s);
        assert(found@.map_values(|s: String| s@) =~= fv.take(found@.len() as int));
        proof {
            let newv = out@.map_values(|s: String| s@);
            let target = fv.skip(n - 1).reverse();
            assert(n <= fv.len());
            assert(old_out.len() == fv.skip(n as int).len());
            assert(fv.skip(n as int).len() == fv.len() - n);
            assert(fv.skip(n - 1).len() == fv.len() - n + 1);
            assert(newv.len() == old_out.len() + 1);
            assert(newv.len() == target.len());
            assert forall|j: int| 0 <= j < newv.len() implies newv[j] == target[j] by {
                if j < newv.len() - 1 {
                    assert(newv[j] == old_out[j]);
                    assert(old_out[j] == fv.skip(n as int)[fv.len() - n - 1 - j]);
                } else {
                    assert(newv[j] == fv[n - 1]);
                }
            }
            assert(newv =~= target);
        }
    }
    assert(fv.skip(0) =~= fv);
    out
}

/// `p` is the `.env` of a directory the configuration collects from.
pub open spec fn env_of_collected_dir(c: ConfigView, p: Seq<char>) -> bool {
    exists|d: Seq<char>| collected_dir(c, d) && p == path_joined(d, ENV_FILE_NAME@)
}

/// Nothing is ever collected from a skipped or vendored directory: every
/// candidate is the `.env` of a directory on the walk that the
/// configuration collects from.
pub proof fn law_candidates_come_from_collected_dirs(c: ConfigView, dir: Option<Seq<char>>, depth: int)
    ensures
        forall|i: int| 0 <= i < walk_up(c, dir, depth).len() ==> env_of_collected_dir(c, #[trigger] walk_up(c, dir, depth)[i]),
    decreases MAX_DEPTH - depth,
{
    if depth < MAX_DEPTH && depth >= 0 {
        if let Some(d) = dir {
            law_candidates_come_from_collected_dirs(c, path_parent_of(d), depth + 1);
            let w = walk_up(c, dir, depth);
            let rest = walk_up(c, path_parent_of(d), depth + 1);
            let head = if collected_dir(c, d) { seq![path_joined(d, ENV_FILE_NAME@)] } else { Seq::<Seq<char>>::empty() };
            assert(w == head + rest);
            assert forall|i: int| 0 <= i < w.len() implies env_of_collected_dir(c, #[trigger] w[i]) by {
                if i < head.len() {
                    assert(collected_dir(c, d) && w[i] == path_joined(d, ENV_FILE_NAME@));
                } else {
                    assert(w[i] == rest[i - head.len()]);
                }
            }
        }
    }
}

/// The directory `n` parent steps above `dir` (`dir` itself for `n == 0`),
/// or `None` once the root has been passed.
pub open spec fn ancestor_at(dir: Option<Seq<char>>, n: nat) -> Option<Seq<char>>
    decreases n,
{
    if n == 0 {
        dir
    } else {
        match dir {
            None => None,
            Some(d) => ancestor_at(path_parent_of(d), (n - 1) as nat),
        }
    }
}

proof fn lemma_walk_reaches(c: ConfigView, dir: Option<Seq<char>>, depth: int, m: nat, d: Seq<char>)
    requires
        0 <= depth,
        depth + m < MAX_DEPTH,
        ancestor_at(dir, m) == Some(d),
        !dir_skipped(c, d),
        !vendored_component(d),
    ensures
        walk_up(c, dir, depth).contains(path_joined(d, ENV_FILE_NAME@)),
    decreases m,
{
    let x = dir->0;
    let rest = walk_up(c, path_parent_of(x), depth + 1);
    let head = if collected_dir(c, x) { seq![path_joined(x, ENV_FILE_NAME@)] } else { Seq::<Seq<char>>::empty() };
    assert(walk_up(c, dir, depth) == head + rest);
    if m == 0 {
        assert((head + rest)[0] == path_joined(d, ENV_FILE_NAME@));
    } else {
        lemma_walk_reaches(c, path_parent_of(x), depth + 1, (m - 1) as nat, d);
        let j = choose|j: int| 0 <= j < rest.len() && rest[j] == path_joined(d, ENV_FILE_NAME@);
        assert((head + rest)[head.len() + j] == rest[j]);
    }
}

/// A skipped directory does not end the walk: for every directory on the
/// parent chain from `start` (within `MAX_DEPTH` steps) that is neither
/// skipped nor vendored, its `.env` is among the candidates
/// `env_file_candidates` returns -- whatever lies between it and `start`.
pub proof fn law_every_collected_ancestor_is_a_candidate(c: ConfigView, start: Seq<char>, n: nat, d: Seq<char>)
    requires
        n < MAX_DEPTH,
        ancestor_at(Some(start), n) == Some(d),
        !dir_skipped(c, d),
        !vendored_component(d),
    ensures
        walk_up(c, Some(start), 0).reverse().contains(path_joined(d, ENV_FILE_NAME@)),
{
    lemma_walk_reaches(c, Some(start), 0, n, d);
    let w = walk_up(c, Some(start), 0);
    let j = choose|j: int| 0 <= j < w.len() && w[j] == path_joined(d, ENV_FILE_NAME@);
    assert(w.reverse()[w.len() - 1 - j] == w[j]);
}

} // verus!
