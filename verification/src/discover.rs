//! Variable-file discovery: the straight-line chain of directories from the
//! resolved start directory down to the template's directory, and the file
//! names that are eligible in each of them.
//!
//! Directories are modelled as their path components, from the filesystem
//! root downward; reading the disk is the caller's affair, which hands in
//! each chain directory's file listing.

use vstd::prelude::*;

use crate::text::str_eq;

verus! {

/// `a` is an ancestor-or-self of `b`, component-wise.
pub open spec fn is_prefix_of(a: Seq<Seq<char>>, b: Seq<Seq<char>>) -> bool {
    a.len() <= b.len() && forall|i: int| 0 <= i < a.len() ==> a[i] == b[i]
}

/// The directory the downward walk begins in: the parent of the
/// version-control root when one was found, the template's own directory
/// otherwise.
pub open spec fn start_dir(end: Seq<Seq<char>>, vcs_root: Option<Seq<Seq<char>>>) -> Seq<
    Seq<char>,
> {
    match vcs_root {
        Some(root) => root.drop_last(),
        None => end,
    }
}

/// The chain of directories discovery visits: every directory from the start
/// directory down to `end`, shallow to deep, and nothing else. Every visited
/// directory has the start as ancestor-or-self and the template's directory
/// as descendant-or-self.
pub fn search_dirs(end: &Vec<String>, vcs_root: &Option<Vec<String>>) -> (r: Vec<Vec<String>>)
    requires
        end@.len() < usize::MAX,
        vcs_root matches Some(root) ==> root@.len() > 0 && is_prefix_of(
            root.deep_view().drop_last(),
            end.deep_view(),
        ),
    ensures
        ({
            let start = start_dir(end.deep_view(), vcs_root.deep_view());
            &&& r@.len() == end.deep_view().len() - start.len() + 1
            &&& forall|i: int|
                0 <= i < r@.len() ==> #[trigger] r@[i].deep_view() == end.deep_view().take(
                    start.len() + i,
                )
            &&& forall|i: int|
                0 <= i < r@.len() ==> is_prefix_of(start, #[trigger] r@[i].deep_view())
                    && is_prefix_of(r@[i].deep_view(), end.deep_view())
        }),
{
    let ghost e = end.deep_view();
    let start_len: usize = match vcs_root {
        Some(root) => root.len() - 1,
        None => end.len(),
    };
    proof {
        assert(start_dir(e, vcs_root.deep_view()).len() == start_len);
        assert(start_dir(e, vcs_root.deep_view()) =~= e.take(start_len as int));
    }
    let mut dirs: Vec<Vec<String>> = Vec::new();
    let mut len: usize = start_len;
    while len <= end.len()
        invariant
            start_len <= len <= e.len() + 1,
            e == end.deep_view(),
            e.len() == end@.len(),
            end@.len() < usize::MAX,
            dirs@.len() == len - start_len,
            forall|i: int|
                0 <= i < dirs@.len() ==> #[trigger] dirs@[i].deep_view() == e.take(start_len + i),
        decreases end@.len() + 1 - len,
    {
        let mut dir: Vec<String> = Vec::new();
        let mut c: usize = 0;
        while c < len
            invariant
                c <= len <= e.len(),
                e == end.deep_view(),
                dir@.len() == c,
                forall|i: int| 0 <= i < c ==> #[trigger] dir@[i]@ == e[i],
            decreases len - c,
        {
            dir.push(end[c].clone());
            c = c + 1;
        }
        proof {
            assert(dir.deep_view() =~= e.take(len as int));
        }
        dirs.push(dir);
        len = len + 1;
    }
    dirs
}

/// `name` is an eligible variable-file name for the requested environments:
/// `.env`, `.sec`, or an environment name followed by `.env` or `.sec`.
pub open spec fn name_matches(name: Seq<char>, envs: Seq<Seq<char>>) -> bool {
    ||| name == ".env"@
    ||| name == ".sec"@
    ||| exists|e: int|
        0 <= e < envs.len() && (name == #[trigger] envs[e] + ".env"@ || name == envs[e] + ".sec"@)
}

/// Decides `name_matches` for a concrete name.
fn name_matches_exec(name: &str, environments: &Vec<String>) -> (r: bool)
    ensures
        r == name_matches(name@, environments.deep_view()),
{
    if str_eq(name, ".env") || str_eq(name, ".sec") {
        return true;
    }
    let ghost envs = environments.deep_view();
    let mut e: usize = 0;
    while e < environments.len()
        invariant
            e <= envs.len(),
            envs == environments.deep_view(),
            name@ != ".env"@ && name@ != ".sec"@,
            forall|q: int|
                0 <= q < e ==> name@ != #[trigger] envs[q] + ".env"@ && name@ != envs[q] + ".sec"@,
        decreases envs.len() - e,
    {
        let with_env = environments[e].clone().concat(".env");
        let with_sec = environments[e].clone().concat(".sec");
        if str_eq(name, with_env.as_str()) || str_eq(name, with_sec.as_str()) {
            proof {
                assert(envs[e as int] == environments@[e as int]@);
                assert(name@ == envs[e as int] + ".env"@ || name@ == envs[e as int] + ".sec"@);
            }
            return true;
        }
        proof {
            assert(envs[e as int] == environments@[e as int]@);
        }
        e = e + 1;
    }
    false
}

/// One discovered candidate variable file: the chain directory it sits in
/// and its file name.
pub struct EnvFile {
    /// The directory, as its path components.
    pub dir: Vec<String>,
    /// The file's name.
    pub name: String,
}

/// The names of `listing` that are eligible, in listing order.
pub open spec fn matching_names(listing: Seq<Seq<char>>, envs: Seq<Seq<char>>) -> Seq<Seq<char>>
    decreases listing.len(),
{
    if listing.len() == 0 {
        Seq::empty()
    } else {
        let rest = matching_names(listing.drop_first(), envs);
        if name_matches(listing[0], envs) {
            seq![listing[0]] + rest
        } else {
            rest
        }
    }
}

/// What discovery yields over the chain: for each directory in order, its
/// eligible file names in listing order, each tagged with the directory.
pub open spec fn discovered(
    dirs: Seq<Seq<Seq<char>>>,
    listings: Seq<Seq<Seq<char>>>,
    envs: Seq<Seq<char>>,
) -> Seq<(Seq<Seq<char>>, Seq<char>)>
    decreases dirs.len(),
{
    if dirs.len() == 0 || listings.len() == 0 {
        Seq::empty()
    } else {
        matching_names(listings[0], envs).map_values(|n: Seq<char>| (dirs[0], n)) + discovered(
            dirs.drop_first(),
            listings.drop_first(),
            envs,
        )
    }
}

/// The views of discovered files.
pub open spec fn env_file_views(files: Seq<EnvFile>) -> Seq<(Seq<Seq<char>>, Seq<char>)> {
    files.map_values(|f: EnvFile| (f.dir.deep_view(), f.name@))
}

/// Walks the chain: every file of every chain directory whose name is
/// eligible, in order, shallow to deep, each tagged with its directory.
/// `listings[i]` holds the file names found in `dirs[i]`.
pub fn find_env_files(
    dirs: &Vec<Vec<String>>,
    listings: &Vec<Vec<String>>,
    environments: &Vec<String>,
) -> (r: Vec<EnvFile>)
    requires
        dirs@.len() == listings@.len(),
    ensures
        env_file_views(r@) == discovered(
            dirs.deep_view(),
            listings.deep_view(),
            environments.deep_view(),
        ),
{
    let ghost dv = dirs.deep_view();
    let ghost lv = listings.deep_view();
    let ghost envs = environments.deep_view();
    let mut out: Vec<EnvFile> = Vec::new();
    let mut d: usize = 0;
    proof {
        assert(dv.skip(0) =~= dv);
        assert(lv.skip(0) =~= lv);
        assert(env_file_views(out@) + discovered(dv, lv, envs) =~= discovered(dv, lv, envs));
    }
    while d < dirs.len()
        invariant
            dv == dirs.deep_view(),
            lv == listings.deep_view(),
            envs == environments.deep_view(),
            dv.len() == lv.len(),
            d <= dv.len(),
            discovered(dv, lv, envs) == env_file_views(out@) + discovered(
                dv.skip(d as int),
                lv.skip(d as int),
                envs,
            ),
        decreases dv.len() - d,
    {
        let listing = &listings[d];
        let ghost l = listing.deep_view();
        let mut f: usize = 0;
        proof {
            assert(l.skip(0) =~= l);
            assert(dv.skip(d as int)[0] == dv[d as int]);
            assert(lv.skip(d as int)[0] == lv[d as int]);
            assert(dv.skip(d as int).drop_first() =~= dv.skip(d + 1));
            assert(lv.skip(d as int).drop_first() =~= lv.skip(d + 1));
            assert(l == lv[d as int]);
        }
        while f < listing.len()
            invariant
                dv == dirs.deep_view(),
                lv == listings.deep_view(),
                envs == environments.deep_view(),
                dv.len() == lv.len(),
                d < dv.len(),
                l == lv[d as int],
                listing == &listings[d as int],
                f <= l.len(),
                discovered(dv, lv, envs) == env_file_views(out@) + matching_names(
                    l.skip(f as int),
                    envs,
                ).map_values(|n: Seq<char>| (dv[d as int], n)) + discovered(
                    dv.skip(d + 1),
                    lv.skip(d + 1),
                    envs,
                ),
            decreases l.len() - f,
        {
            let ghost prev = out@;
            let matched = name_matches_exec(listing[f].as_str(), environments);
            if matched {
                let mut dir: Vec<String> = Vec::new();
                let mut c: usize = 0;
                while c < dirs[d].len()
                    invariant
                        dv == dirs.deep_view(),
                        d < dv.len(),
                        c <= dirs@[d as int]@.len(),
                        dir@.len() == c,
                        forall|i: int|
                            0 <= i < c ==> #[trigger] dir@[i]@ == dv[d as int][i],
                    decreases dirs@[d as int]@.len() - c,
                {
                    dir.push(dirs[d][c].clone());
                    c = c + 1;
                }
                proof {
                    assert(dir.deep_view() =~= dv[d as int]);
                }
                out.push(EnvFile { dir, name: listing[f].clone() });
            }
            proof {
                assert(l.skip(f as int)[0] == l[f as int]);
                assert(l.skip(f as int).drop_first() =~= l.skip(f + 1));
                assert(l[f as int] == listing@[f as int]@);
                if matched {
                    assert(env_file_views(out@) =~= env_file_views(prev).push(
                        (dv[d as int], l[f as int]),
                    ));
                }
                assert(discovered(dv, lv, envs) =~= env_file_views(out@) + matching_names(
                    l.skip(f + 1),
                    envs,
                ).map_values(|n: Seq<char>| (dv[d as int], n)) + discovered(
                    dv.skip(d + 1),
                    lv.skip(d + 1),
                    envs,
                ));
            }
            f = f + 1;
        }
        proof {
            assert(l.skip(l.len() as int) =~= Seq::<Seq<char>>::empty());
            assert(discovered(dv, lv, envs) =~= env_file_views(out@) + discovered(
                dv.skip(d + 1),
                lv.skip(d + 1),
                envs,
            ));
        }
        d = d + 1;
    }
    proof {
        assert(discovered(dv.skip(d as int), lv.skip(d as int), envs) =~= Seq::<
            (Seq<Seq<char>>, Seq<char>),
        >::empty());
        assert(env_file_views(out@) =~= discovered(dv, lv, envs));
    }
    out
}

} // verus!
