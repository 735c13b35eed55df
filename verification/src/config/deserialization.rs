//! The repo configuration tree and its resolution into an invocation plan:
//! validation of package names, checkers and custom commands, selection of
//! packages, merging of per-checker commands with package overrides, and
//! expansion into sorted `Resolve` entries.

use vstd::prelude::*;
use super::checker::{CheckerTool, spec_name};
use super::cmds::{Cmd, CmdEntry, CmdSpec, Cmds, spec_has_key};
use crate::repo::Action;
use crate::strutil;
use crate::strutil::spec_contains;

verus! {

/// Per-repo switches: whether all checkers run by default, which package
/// directories are skipped or exclusively kept (as glob patterns over the
/// package directory), and whether to rerun or reuse the last cache. The
/// last two are mutually exclusive.
#[derive(Debug)]
pub struct Meta {
    pub run_all_checkers: bool,
    pub skip_pkg_dir_globs: Vec<String>,
    pub only_pkg_dir_globs: Vec<String>,
    pub rerun: bool,
    pub use_last_cache: bool,
}

impl Default for Meta {
    /// All checkers on; nothing skipped; no rerun or cache reuse.
    fn default() -> (r: Meta)
        ensures
            r.run_all_checkers == true,
            r.skip_pkg_dir_globs@.len() == 0,
            r.only_pkg_dir_globs@.len() == 0,
            r.rerun == false,
            r.use_last_cache == false,
    {
        Meta {
            run_all_checkers: true,
            skip_pkg_dir_globs: Vec::new(),
            only_pkg_dir_globs: Vec::new(),
            rerun: false,
            use_last_cache: false,
        }
    }
}

/// Commands run before a repo is analyzed.
pub type Setup = Vec<String>;

/// A list of target triples.
pub type Targets = Vec<String>;

/// One feature-set designation.
pub type Features = String;

/// An error that fails the whole resolution of one repo.
#[derive(Debug)]
pub enum Error {
    /// A package named under `packages` is not among the discovered ones.
    UnknownPackage { pkg: String },
    /// A checker key that the registry does not allow to be configured.
    UnknownChecker { checker: CheckerTool, repo: String, pkg: Option<String> },
    /// A custom command that does not mention its checker's name.
    CmdNotMatch { cmd: String, name: String, repo: String, pkg: Option<String> },
    /// `meta.rerun` and `meta.use_last_cache` are both set.
    MetaConflict { repo: String },
    /// A package-directory filter is not a valid glob pattern.
    BadGlob { pattern: String, repo: String },
}

/// The mathematical value of an `Error`.
pub ghost enum ErrorSpec {
    UnknownPackage { pkg: Seq<char> },
    UnknownChecker { checker: CheckerTool, repo: Seq<char>, pkg: Option<Seq<char>> },
    CmdNotMatch { cmd: Seq<char>, name: Seq<char>, repo: Seq<char>, pkg: Option<Seq<char>> },
    MetaConflict { repo: Seq<char> },
    BadGlob { pattern: Seq<char>, repo: Seq<char> },
}

impl View for Error {
    type V = ErrorSpec;

    open spec fn view(&self) -> ErrorSpec {
        match self {
            Error::UnknownPackage { pkg } => ErrorSpec::UnknownPackage { pkg: pkg@ },
            Error::UnknownChecker { checker, repo, pkg } => ErrorSpec::UnknownChecker {
                checker: *checker,
                repo: repo@,
                pkg: match pkg {
                    Some(p) => Some(p@),
                    None => None,
                },
            },
            Error::CmdNotMatch { cmd, name, repo, pkg } => ErrorSpec::CmdNotMatch {
                cmd: cmd@,
                name: name@,
                repo: repo@,
                pkg: match pkg {
                    Some(p) => Some(p@),
                    None => None,
                },
            },
            Error::MetaConflict { repo } => ErrorSpec::MetaConflict { repo: repo@ },
            Error::BadGlob { pattern, repo } => ErrorSpec::BadGlob {
                pattern: pattern@,
                repo: repo@,
            },
        }
    }
}

/// Whether a pattern is a glob that `glob::Pattern::new` accepts.
pub uninterp spec fn glob_pat_ok(pattern: Seq<char>) -> bool;

/// Whether a valid glob pattern matches a path.
pub uninterp spec fn glob_matches(pattern: Seq<char>, path: Seq<char>) -> bool;

/// Relies on `glob::Pattern::new`: it accepts or rejects the pattern text,
/// depending on that text alone.
#[verifier::external_body]
fn glob_new_ok(pattern: &str) -> (r: bool)
    ensures
        r == glob_pat_ok(pattern@),
{
    glob::Pattern::new(pattern).is_ok()
}

/// Relies on `glob::Pattern::new` and `glob::Pattern::matches`: for a valid
/// pattern, whether it matches the path depends on the two texts alone.
#[verifier::external_body]
fn glob_match(pattern: &str, path: &str) -> (r: Option<bool>)
    ensures
        r is Some <==> glob_pat_ok(pattern@),
        r is Some ==> r == Some(glob_matches(pattern@, path@)),
{
    glob::Pattern::new(pattern).ok().map(|p| p.matches(path))
}

/// Configuration of one repo: optional meta switches, setup commands,
/// targets, features and environment, per-checker commands, and per-package
/// overriding sub-configurations.
#[derive(Debug)]
pub struct RepoConfig {
    pub meta: Option<Meta>,
    pub setup: Option<Setup>,
    pub targets: Option<Targets>,
    pub no_install_targets: Option<Targets>,
    pub features: Option<Vec<Features>>,
    pub env: Option<Vec<(String, String)>>,
    pub cmds: Cmds,
    pub packages: Vec<(String, RepoConfig)>,
}

/// The first pattern in the list that is not a valid glob.
pub open spec fn spec_first_bad_glob(globs: Seq<Seq<char>>) -> Option<Seq<char>>
    decreases globs.len(),
{
    if globs.len() == 0 {
        None
    } else if !glob_pat_ok(globs[0]) {
        Some(globs[0])
    } else {
        spec_first_bad_glob(globs.drop_first())
    }
}

/// The validation outcome of the meta switches: the first invalid skip
/// pattern, else the first invalid only pattern, else a conflict of
/// `rerun` with `use_last_cache`; `None` when all pass.
pub open spec fn spec_meta_err(m: &Meta, repo: Seq<char>) -> Option<ErrorSpec> {
    match spec_first_bad_glob(m.skip_pkg_dir_globs.deep_view()) {
        Some(p) => Some(ErrorSpec::BadGlob { pattern: p, repo }),
        None => match spec_first_bad_glob(m.only_pkg_dir_globs.deep_view()) {
            Some(p) => Some(ErrorSpec::BadGlob { pattern: p, repo }),
            None => if m.rerun && m.use_last_cache {
                Some(ErrorSpec::MetaConflict { repo })
            } else {
                None
            },
        },
    }
}

fn first_bad_glob(globs: &Vec<String>) -> (r: Option<&String>)
    ensures
        match r {
            Some(p) => spec_first_bad_glob(globs.deep_view()) == Some(p@),
            None => spec_first_bad_glob(globs.deep_view()) is None,
        },
{
    let n = globs.len();
    let mut i: usize = 0;
    while i < n
        invariant
            0 <= i <= n,
            n == globs@.len(),
            forall|j: int| 0 <= j < i ==> glob_pat_ok(#[trigger] globs.deep_view()[j]),
        decreases n - i,
    {
        if !glob_new_ok(globs[i].as_str()) {
            proof {
                assert(globs.deep_view()[i as int] == globs@[i as int]@);
                lemma_first_bad_glob_at(globs.deep_view(), i as int);
            }
            return Some(&globs[i]);
        }
        proof {
            assert(globs.deep_view()[i as int] == globs@[i as int]@);
        }
        i += 1;
    }
    proof {
        lemma_first_bad_glob_none(globs.deep_view());
    }
    None
}

proof fn lemma_first_bad_glob_at(globs: Seq<Seq<char>>, i: int)
    requires
        0 <= i < globs.len(),
        !glob_pat_ok(globs[i]),
        forall|j: int| 0 <= j < i ==> glob_pat_ok(#[trigger] globs[j]),
    ensures
        spec_first_bad_glob(globs) == Some(globs[i]),
    decreases i,
{
    if i > 0 {
        lemma_first_bad_glob_at(globs.drop_first(), i - 1);
    }
}

proof fn lemma_first_bad_glob_none(globs: Seq<Seq<char>>)
    requires
        forall|j: int| 0 <= j < globs.len() ==> glob_pat_ok(#[trigger] globs[j]),
    ensures
        spec_first_bad_glob(globs) is None,
    decreases globs.len(),
{
    if globs.len() > 0 {
        lemma_first_bad_glob_none(globs.drop_first());
    }
}

impl RepoConfig {
    /// Commands that are run before analyzing a repo.
    pub fn setup(&self) -> (r: Option<&Setup>)
        ensures
            r == match self.setup {
                Some(ref s) => Some(s),
                None => None::<&Setup>,
            },
    {
        self.setup.as_ref()
    }

    /// The glob patterns of package directories to skip, empty when no meta
    /// switches are given.
    pub fn skip_pkg_dir_globs(&self) -> (r: &[String])
        ensures
            r@ == (match self.meta {
                Some(ref m) => m.skip_pkg_dir_globs@,
                None => Seq::<String>::empty(),
            }),
    {
        match &self.meta {
            Some(m) => m.skip_pkg_dir_globs.as_slice(),
            None => &[],
        }
    }

    /// The glob patterns of package directories to keep exclusively, empty
    /// when no meta switches are given.
    pub fn only_pkg_dir_globs(&self) -> (r: &[String])
        ensures
            r@ == (match self.meta {
                Some(ref m) => m.only_pkg_dir_globs@,
                None => Seq::<String>::empty(),
            }),
    {
        match &self.meta {
            Some(m) => m.only_pkg_dir_globs.as_slice(),
            None => &[],
        }
    }

    /// Whether the meta switches ask all checkers to run by default; true
    /// when no meta is given.
    pub fn run_all_checkers(&self) -> (r: bool)
        ensures
            r == (match self.meta {
                Some(ref m) => m.run_all_checkers,
                None => true,
            }),
    {
        match &self.meta {
            Some(m) => m.run_all_checkers,
            None => true,
        }
    }

    /// Validate the meta switches: the package-directory filters must be
    /// valid glob patterns, and `rerun` excludes `use_last_cache`. A missing
    /// meta passes.
    pub fn validate_meta(&self, repo: &str) -> (r: Result<(), Error>)
        ensures
            match r {
                Ok(()) => (match self.meta {
                    Some(ref m) => spec_meta_err(m, repo@) is None,
                    None => true,
                }),
                Err(e) => (match self.meta {
                    Some(ref m) => spec_meta_err(m, repo@) == Some(e@),
                    None => false,
                }),
            },
    {
        match &self.meta {
            Some(m) => {
                if let Some(p) = first_bad_glob(&m.skip_pkg_dir_globs) {
                    return Err(Error::BadGlob { pattern: p.clone(), repo: repo.to_owned() });
                }
                if let Some(p) = first_bad_glob(&m.only_pkg_dir_globs) {
                    return Err(Error::BadGlob { pattern: p.clone(), repo: repo.to_owned() });
                }
                if m.rerun && m.use_last_cache {
                    return Err(Error::MetaConflict { repo: repo.to_owned() });
                }
                Ok(())
            },
            None => Ok(()),
        }
    }

    /// Sort the package table by package name.
    pub fn sort_packages(&mut self)
        ensures
            final(self).packages@.len() == old(self).packages@.len(),
            forall|i: int|
                0 <= i < final(self).packages@.len() - 1 ==> crate::config::resolve::lex_le(
                    (#[trigger] final(self).packages@[i]).0@,
                    final(self).packages@[i + 1].0@,
                ),
            final(self).packages@.map_values(|e: (String, RepoConfig)| (e.0@, e.1)).to_multiset()
                == old(self).packages@.map_values(
                |e: (String, RepoConfig)| (e.0@, e.1),
            ).to_multiset(),
            final(self).meta == old(self).meta,
            final(self).cmds@ == old(self).cmds@,
    {
        sort_pkg_entries(&mut self.packages);
    }

    /// The meta switches, if any.
    pub fn get_meta(&self) -> (r: Option<&Meta>)
        ensures
            r == match self.meta {
                Some(ref m) => Some(m),
                None => None::<&Meta>,
            },
    {
        self.meta.as_ref()
    }
}

/// Sort a package table by name, each sub-configuration carried with its
/// name; the entries are only rearranged.
fn sort_pkg_entries(v: &mut Vec<(String, RepoConfig)>)
    ensures
        final(v)@.len() == old(v)@.len(),
        forall|i: int|
            0 <= i < final(v)@.len() - 1 ==> crate::config::resolve::lex_le(
                (#[trigger] final(v)@[i]).0@,
                final(v)@[i + 1].0@,
            ),
        final(v)@.map_values(|e: (String, RepoConfig)| (e.0@, e.1)).to_multiset() == old(
            v,
        )@.map_values(|e: (String, RepoConfig)| (e.0@, e.1)).to_multiset(),
{
    let n = v.len();
    if n <= 1 {
        return ;
    }
    let mut i: usize = 1;
    while i < n
        invariant
            1 <= i <= n,
            n == v@.len(),
            pairwise_pkgs_le(v@.map_values(|e: (String, RepoConfig)| (e.0@, e.1)), i as int),
            v@.map_values(|e: (String, RepoConfig)| (e.0@, e.1)).to_multiset() == old(
                v,
            )@.map_values(|e: (String, RepoConfig)| (e.0@, e.1)).to_multiset(),
        decreases n - i,
    {
        let ghost cur = v@.map_values(|e: (String, RepoConfig)| (e.0@, e.1));
        let mut p: usize = i;
        while p > 0 && !names_le(&v[p - 1].0, &v[i].0)
            invariant
                0 <= p <= i < n,
                n == v@.len(),
                cur == v@.map_values(|e: (String, RepoConfig)| (e.0@, e.1)),
                forall|k: int|
                    p <= k < i ==> crate::config::resolve::lex_le(
                        cur[i as int].0,
                        (#[trigger] cur[k]).0,
                    ),
            decreases p,
        {
            proof {
                crate::config::resolve::lemma_lex_le_total(cur[p - 1].0, cur[i as int].0);
            }
            p -= 1;
        }
        if p < i {
            let x = v.remove(i);
            let ghost xv = (x.0@, x.1);
            proof {
                assert(v@.map_values(|e: (String, RepoConfig)| (e.0@, e.1)) =~= cur.remove(
                    i as int,
                ));
            }
            v.insert(p, x);
            proof {
                broadcast use vstd::seq_lib::group_to_multiset_ensures;

                let post = v@.map_values(|e: (String, RepoConfig)| (e.0@, e.1));
                assert(post =~= cur.remove(i as int).insert(p as int, xv));
                lemma_pkgs_insert_multiset(cur.remove(i as int), p as int, xv);
                assert(cur.remove(i as int).to_multiset() =~= cur.to_multiset().remove(
                    cur[i as int],
                ));
                assert(xv == cur[i as int]);
                assert(cur.to_multiset().contains(cur[i as int])) by {
                    assert(cur.contains(cur[i as int]));
                }
                assert(post.to_multiset() =~= cur.to_multiset());
                assert forall|k1: int, k2: int| 0 <= k1 < k2 < i + 1 implies
                    crate::config::resolve::lex_le(
                    (#[trigger] post[k1]).0,
                    (#[trigger] post[k2]).0,
                ) by {
                    if k2 < p {
                    } else if k2 == p {
                        if k1 < p - 1 {
                            crate::config::resolve::lemma_lex_le_trans(
                                cur[k1].0,
                                cur[p - 1].0,
                                xv.0,
                            );
                        }
                    } else if k1 == p {
                        assert(post[k2] == cur[k2 - 1]);
                    } else if k1 < p {
                        assert(post[k2] == cur[k2 - 1]);
                    } else {
                        assert(post[k1] == cur[k1 - 1] && post[k2] == cur[k2 - 1]);
                    }
                }
            }
        } else {
            proof {
                assert forall|k1: int, k2: int| 0 <= k1 < k2 < i + 1 implies
                    crate::config::resolve::lex_le(
                    (#[trigger] cur[k1]).0,
                    (#[trigger] cur[k2]).0,
                ) by {
                    if k2 == i {
                        if k1 == p - 1 {
                        } else {
                            crate::config::resolve::lemma_lex_le_trans(
                                cur[k1].0,
                                cur[p - 1].0,
                                cur[i as int].0,
                            );
                        }
                    }
                }
            }
        }
        i += 1;
    }
    proof {
        let entries = v@.map_values(|e: (String, RepoConfig)| (e.0@, e.1));
        assert forall|k: int| 0 <= k < v@.len() - 1 implies crate::config::resolve::lex_le(
            (#[trigger] v@[k]).0@,
            v@[k + 1].0@,
        ) by {
            assert(entries[k] == (v@[k].0@, v@[k].1));
            assert(entries[k + 1] == (v@[k + 1].0@, v@[k + 1].1));
            assert(crate::config::resolve::lex_le(entries[k].0, entries[k + 1].0));
        }
    }
}

/// Every pair of entries below `hi` is in name order.
pub open spec fn pairwise_pkgs_le(s: Seq<(Seq<char>, RepoConfig)>, hi: int) -> bool {
    forall|k1: int, k2: int|
        0 <= k1 < k2 < hi ==> crate::config::resolve::lex_le(
            (#[trigger] s[k1]).0,
            (#[trigger] s[k2]).0,
        )
}

proof fn lemma_pkgs_insert_multiset(s: Seq<(Seq<char>, RepoConfig)>, i: int, a: (Seq<char>, RepoConfig))
    requires
        0 <= i <= s.len(),
    ensures
        s.insert(i, a).to_multiset() == s.to_multiset().insert(a),
{
    broadcast use vstd::seq_lib::group_to_multiset_ensures;

    let t = s.insert(i, a);
    assert(t.remove(i) =~= s);
    assert(t[i] == a);
    assert(t.remove(i).to_multiset() =~= t.to_multiset().remove(a));
    assert(t.to_multiset().contains(a)) by {
        assert(t.contains(a));
    }
    assert(t.to_multiset() =~= s.to_multiset().insert(a));
}

/// Compare two package names lexicographically.
fn names_le(a: &String, b: &String) -> (r: bool)
    ensures
        r == crate::config::resolve::lex_le(a@, b@),
{
    let av = strutil::chars_vec(a.as_str());
    let bv = strutil::chars_vec(b.as_str());
    crate::config::resolve::lex_le_chars(av.as_slice(), bv.as_slice())
}


// ---------------------------------------------------------------------------
// Validation of package names, checker keys, and custom command names.
// ---------------------------------------------------------------------------

/// The first package named under `packages` that is not among the
/// discovered ones.
pub open spec fn spec_first_unknown_pkg(
    conf_pkgs: Seq<(String, RepoConfig)>,
    discovered: Seq<(String, crate::layout::PackageInfoShared)>,
) -> Option<Seq<char>>
    decreases conf_pkgs.len(),
{
    if conf_pkgs.len() == 0 {
        None
    } else if !crate::layout::spec_pkgs_contain(discovered, conf_pkgs[0].0@) {
        Some(conf_pkgs[0].0@)
    } else {
        spec_first_unknown_pkg(conf_pkgs.drop_first(), discovered)
    }
}

/// The first checker key bound in `cmds` that the baseline does not allow.
pub open spec fn spec_first_unknown_key(cmds: Seq<CmdEntry>, base: Seq<CmdEntry>) -> Option<
    CheckerTool,
>
    decreases cmds.len(),
{
    if cmds.len() == 0 {
        None
    } else if !spec_has_key(base, cmds[0].0) {
        Some(cmds[0].0)
    } else {
        spec_first_unknown_key(cmds.drop_first(), base)
    }
}

/// The first unsupported checker key anywhere in the tree: repo-level keys
/// first, then each package's keys in table order.
pub open spec fn spec_checker_err(c: &RepoConfig, base: Seq<CmdEntry>, repo: Seq<char>) -> Option<
    ErrorSpec,
> {
    match spec_first_unknown_key(c.cmds@, base) {
        Some(k) => Some(ErrorSpec::UnknownChecker { checker: k, repo, pkg: None }),
        None => spec_checker_err_pkgs(c.packages@, base, repo),
    }
}

pub open spec fn spec_checker_err_pkgs(
    m: Seq<(String, RepoConfig)>,
    base: Seq<CmdEntry>,
    repo: Seq<char>,
) -> Option<ErrorSpec>
    decreases m.len(),
{
    if m.len() == 0 {
        None
    } else {
        match spec_first_unknown_key(m[0].1.cmds@, base) {
            Some(k) => Some(
                ErrorSpec::UnknownChecker { checker: k, repo, pkg: Some(m[0].0@) },
            ),
            None => spec_checker_err_pkgs(m.drop_first(), base, repo),
        }
    }
}

/// The first custom command in `cmds` that does not mention its checker's
/// canonical name, with that name.
pub open spec fn spec_first_cmd_mismatch(cmds: Seq<CmdEntry>) -> Option<(Seq<char>, Seq<char>)>
    decreases cmds.len(),
{
    if cmds.len() == 0 {
        None
    } else {
        let rest = spec_first_cmd_mismatch(cmds.drop_first());
        match cmds[0].1 {
            CmdSpec::Run(_) => rest,
            CmdSpec::Steps(steps) => match Action::spec_first_bad(steps, spec_name(cmds[0].0)) {
                Some(cmd) => Some((cmd, spec_name(cmds[0].0))),
                None => rest,
            },
        }
    }
}

/// The first mismatched custom command anywhere in the tree: repo-level
/// commands first, then each package's in table order.
pub open spec fn spec_name_err(c: &RepoConfig, repo: Seq<char>) -> Option<ErrorSpec> {
    match spec_first_cmd_mismatch(c.cmds@) {
        Some(cn) => Some(
            ErrorSpec::CmdNotMatch { cmd: cn.0, name: cn.1, repo, pkg: None },
        ),
        None => spec_name_err_pkgs(c.packages@, repo),
    }
}

pub open spec fn spec_name_err_pkgs(m: Seq<(String, RepoConfig)>, repo: Seq<char>) -> Option<
    ErrorSpec,
>
    decreases m.len(),
{
    if m.len() == 0 {
        None
    } else {
        match spec_first_cmd_mismatch(m[0].1.cmds@) {
            Some(cn) => Some(
                ErrorSpec::CmdNotMatch { cmd: cn.0, name: cn.1, repo, pkg: Some(m[0].0@) },
            ),
            None => spec_name_err_pkgs(m.drop_first(), repo),
        }
    }
}

/// Find the first custom command among these bindings that does not mention
/// its checker's name.
fn first_cmd_mismatch(cmds: &Cmds) -> (r: Option<(String, &'static str)>)
    ensures
        match r {
            Some(cn) => spec_first_cmd_mismatch(cmds@) == Some((cn.0@, cn.1@)),
            None => spec_first_cmd_mismatch(cmds@) is None,
        },
{
    let n = cmds.len();
    let mut i: usize = 0;
    while i < n
        invariant
            0 <= i <= n,
            n == cmds@.len(),
            forall|j: int|
                0 <= j < i ==> spec_entry_mismatch(#[trigger] cmds@[j]) is None,
        decreases n - i,
    {
        let t = cmds.key_at(i);
        let name = t.name();
        match cmds.cmd_at(i) {
            Cmd::Run(_) => {
                proof {
                    assert(spec_entry_mismatch(cmds@[i as int]) is None);
                }
            },
            Cmd::Steps(steps) => {
                let name_chars = strutil::chars_vec(name);
                let m = steps.len();
                let mut j: usize = 0;
                while j < m
                    invariant
                        0 <= j <= m,
                        0 <= i < n,
                        n == cmds@.len(),
                        m == steps@.len(),
                        name_chars@ == spec_name(t),
                        name@ == spec_name(t),
                        t == cmds@[i as int].0,
                        cmds@[i as int].1 == CmdSpec::Steps(steps.deep_view()),
                        forall|j2: int|
                            0 <= j2 < i ==> spec_entry_mismatch(#[trigger] cmds@[j2]) is None,
                        forall|k: int|
                            0 <= k < j ==> spec_contains(
                                #[trigger] steps.deep_view()[k],
                                spec_name(t),
                            ),
                    decreases m - j,
                {
                    let step_chars = strutil::chars_vec(steps[j].as_str());
                    if !strutil::contains_sub(step_chars.as_slice(), name_chars.as_slice()) {
                        let cmd = steps[j].clone();
                        proof {
                            assert(steps.deep_view()[j as int] == steps@[j as int]@);
                            assert(forall|k: int|
                                0 <= k < steps.deep_view().len() ==> #[trigger] steps.deep_view()[k]
                                    == steps@[k]@);
                            lemma_action_first_bad_at(steps.deep_view(), spec_name(t), j as int);
                            assert(spec_entry_mismatch(cmds@[i as int]) == Some(
                                (steps.deep_view()[j as int], spec_name(t)),
                            ));
                            lemma_first_mismatch_at(cmds@, i as int);
                        }
                        return Some((cmd, name));
                    }
                    proof {
                        assert(steps.deep_view()[j as int] == steps@[j as int]@);
                    }
                    j += 1;
                }
                proof {
                    lemma_action_first_bad_none(steps.deep_view(), spec_name(t));
                    assert(spec_entry_mismatch(cmds@[i as int]) is None);
                }
            },
        }
        i += 1;
    }
    proof {
        lemma_first_mismatch_none(cmds@);
    }
    None
}

/// The mismatch found in one binding, if any.
pub open spec fn spec_entry_mismatch(e: CmdEntry) -> Option<(Seq<char>, Seq<char>)> {
    match e.1 {
        CmdSpec::Run(_) => None,
        CmdSpec::Steps(steps) => match Action::spec_first_bad(steps, spec_name(e.0)) {
            Some(cmd) => Some((cmd, spec_name(e.0))),
            None => None,
        },
    }
}

proof fn lemma_first_mismatch_at(cmds: Seq<CmdEntry>, i: int)
    requires
        0 <= i < cmds.len(),
        spec_entry_mismatch(cmds[i]) is Some,
        forall|j: int| 0 <= j < i ==> spec_entry_mismatch(#[trigger] cmds[j]) is None,
    ensures
        spec_first_cmd_mismatch(cmds) == spec_entry_mismatch(cmds[i]),
    decreases i,
{
    if i > 0 {
        lemma_first_mismatch_at(cmds.drop_first(), i - 1);
    }
}

proof fn lemma_first_mismatch_none(cmds: Seq<CmdEntry>)
    requires
        forall|j: int| 0 <= j < cmds.len() ==> spec_entry_mismatch(#[trigger] cmds[j]) is None,
    ensures
        spec_first_cmd_mismatch(cmds) is None,
    decreases cmds.len(),
{
    if cmds.len() > 0 {
        lemma_first_mismatch_none(cmds.drop_first());
    }
}

proof fn lemma_action_first_bad_at(steps: Seq<Seq<char>>, name: Seq<char>, i: int)
    requires
        0 <= i < steps.len(),
        !spec_contains(steps[i], name),
        forall|j: int| 0 <= j < i ==> spec_contains(#[trigger] steps[j], name),
    ensures
        Action::spec_first_bad(steps, name) == Some(steps[i]),
    decreases i,
{
    if i > 0 {
        lemma_action_first_bad_at(steps.drop_first(), name, i - 1);
    }
}

proof fn lemma_action_first_bad_none(steps: Seq<Seq<char>>, name: Seq<char>)
    requires
        forall|j: int| 0 <= j < steps.len() ==> spec_contains(#[trigger] steps[j], name),
    ensures
        Action::spec_first_bad(steps, name) is None,
    decreases steps.len(),
{
    if steps.len() > 0 {
        lemma_action_first_bad_none(steps.drop_first(), name);
    }
}

impl RepoConfig {
    /// Check every custom command of this repo configuration: each must
    /// contain its checker's canonical name as a substring; the first that
    /// does not is reported together with that name.
    pub fn validate_checker_name(&self, repo: &str) -> (r: Result<(), Error>)
        ensures
            match r {
                Ok(()) => spec_name_err(self, repo@) is None,
                Err(e) => spec_name_err(self, repo@) == Some(e@),
            },
    {
        if let Some((cmd, name)) = first_cmd_mismatch(&self.cmds) {
            return Err(
                Error::CmdNotMatch {
                    cmd,
                    name: name.to_owned(),
                    repo: repo.to_owned(),
                    pkg: None,
                },
            );
        }
        let n = self.packages.len();
        let mut i: usize = 0;
        while i < n
            invariant
                0 <= i <= n,
                n == self.packages@.len(),
                spec_first_cmd_mismatch(self.cmds@) is None,
                forall|j: int|
                    0 <= j < i ==> spec_first_cmd_mismatch(
                        (#[trigger] self.packages@[j]).1.cmds@,
                    ) is None,
            decreases n - i,
        {
            let (pkg_name, pc) = (&self.packages[i].0, &self.packages[i].1);
            match pc.validate_checker_name_in_pkg(repo, pkg_name.as_str()) {
                Ok(()) => {},
                Err(e) => {
                    proof {
                        lemma_name_err_pkgs_at(self.packages@, repo@, i as int);
                    }
                    return Err(e);
                },
            }
            i += 1;
        }
        proof {
            lemma_name_err_pkgs_none(self.packages@, repo@);
        }
        Ok(())
    }

    /// Check the custom commands of one package's sub-configuration.
    pub fn validate_checker_name_in_pkg(&self, repo: &str, pkg: &str) -> (r: Result<(), Error>)
        ensures
            match r {
                Ok(()) => spec_first_cmd_mismatch(self.cmds@) is None,
                Err(e) => (match spec_first_cmd_mismatch(self.cmds@) {
                    Some(cn) => e@ == (ErrorSpec::CmdNotMatch {
                        cmd: cn.0,
                        name: cn.1,
                        repo: repo@,
                        pkg: Some(pkg@),
                    }),
                    None => false,
                }),
            },
    {
        if let Some((cmd, name)) = first_cmd_mismatch(&self.cmds) {
            return Err(
                Error::CmdNotMatch {
                    cmd,
                    name: name.to_owned(),
                    repo: repo.to_owned(),
                    pkg: Some(pkg.to_owned()),
                },
            );
        }
        Ok(())
    }
}

proof fn lemma_name_err_pkgs_at(m: Seq<(String, RepoConfig)>, repo: Seq<char>, i: int)
    requires
        0 <= i < m.len(),
        spec_first_cmd_mismatch(m[i].1.cmds@) is Some,
        forall|j: int|
            0 <= j < i ==> spec_first_cmd_mismatch((#[trigger] m[j]).1.cmds@) is None,
    ensures
        spec_name_err_pkgs(m, repo) == (match spec_first_cmd_mismatch(m[i].1.cmds@) {
            Some(cn) => Some(
                ErrorSpec::CmdNotMatch { cmd: cn.0, name: cn.1, repo, pkg: Some(m[i].0@) },
            ),
            None => None::<ErrorSpec>,
        }),
    decreases i,
{
    if i > 0 {
        lemma_name_err_pkgs_at(m.drop_first(), repo, i - 1);
    }
}

proof fn lemma_name_err_pkgs_none(m: Seq<(String, RepoConfig)>, repo: Seq<char>)
    requires
        forall|j: int|
            0 <= j < m.len() ==> spec_first_cmd_mismatch((#[trigger] m[j]).1.cmds@) is None,
    ensures
        spec_name_err_pkgs(m, repo) is None,
    decreases m.len(),
{
    if m.len() > 0 {
        lemma_name_err_pkgs_none(m.drop_first(), repo);
    }
}


// ---------------------------------------------------------------------------
// Package selection, per-package expansion, and full resolution.
// ---------------------------------------------------------------------------

/// Whether the configuration lists a package of this name.
pub open spec fn spec_listed(conf_pkgs: Seq<(String, RepoConfig)>, name: Seq<char>) -> bool {
    exists|i: int| 0 <= i < conf_pkgs.len() && (#[trigger] conf_pkgs[i]).0@ == name
}

/// The sub-configuration listed for this package name, if any (first match).
pub open spec fn spec_pkg_cfg_lookup(conf_pkgs: Seq<(String, RepoConfig)>, name: Seq<char>) -> Option<
    RepoConfig,
>
    decreases conf_pkgs.len(),
{
    if conf_pkgs.len() == 0 {
        None
    } else if conf_pkgs[0].0@ == name {
        Some(conf_pkgs[0].1)
    } else {
        spec_pkg_cfg_lookup(conf_pkgs.drop_first(), name)
    }
}

/// Whether some valid skip pattern matches this package directory.
pub open spec fn spec_skip_match(globs: Seq<Seq<char>>, path: Seq<char>) -> bool {
    exists|i: int|
        0 <= i < globs.len() && glob_pat_ok(#[trigger] globs[i]) && glob_matches(globs[i], path)
}

/// The packages kept for resolution: one explicitly listed under `packages`
/// is always kept; any other is kept unless a valid skip pattern matches its
/// directory.
pub open spec fn spec_selected(
    discovered: Seq<(Seq<char>, crate::layout::PkgInfoV)>,
    conf_pkgs: Seq<(String, RepoConfig)>,
    skip: Seq<Seq<char>>,
) -> Seq<(Seq<char>, crate::layout::PkgInfoV)>
    decreases discovered.len(),
{
    if discovered.len() == 0 {
        Seq::empty()
    } else {
        let keep = spec_listed(conf_pkgs, discovered[0].0) || !spec_skip_match(
            skip,
            discovered[0].1.pkg_dir,
        );
        let rest = spec_selected(discovered.drop_first(), conf_pkgs, skip);
        if keep {
            seq![discovered[0]] + rest
        } else {
            rest
        }
    }
}

/// The first choice given: the package's own list, else the repo's, else
/// what detection found.
pub open spec fn spec_pick(
    pkg_level: Option<Seq<Seq<char>>>,
    repo_level: Option<Seq<Seq<char>>>,
    detected: Seq<Seq<char>>,
) -> Seq<Seq<char>> {
    match pkg_level {
        Some(t) => t,
        None => match repo_level {
            Some(t) => t,
            None => detected,
        },
    }
}

/// The targets list of an optional sub-configuration.
pub open spec fn spec_opt_targets(pc: Option<RepoConfig>) -> Option<Seq<Seq<char>>> {
    match pc {
        Some(p) => match p.targets {
            Some(t) => Some(t.deep_view()),
            None => None,
        },
        None => None,
    }
}

pub open spec fn spec_opt_features(pc: Option<RepoConfig>) -> Option<Seq<Seq<char>>> {
    match pc {
        Some(p) => match p.features {
            Some(t) => Some(t.deep_view()),
            None => None,
        },
        None => None,
    }
}

pub open spec fn spec_opt_env(pc: Option<RepoConfig>) -> Option<Seq<(Seq<char>, Seq<char>)>> {
    match pc {
        Some(p) => match p.env {
            Some(t) => Some(t@.map_values(|e: (String, String)| (e.0@, e.1@))),
            None => None,
        },
        None => None,
    }
}

pub open spec fn spec_env_view(v: Seq<(String, String)>) -> Seq<(Seq<char>, Seq<char>)> {
    v.map_values(|e: (String, String)| (e.0@, e.1@))
}

/// The host target assumed when nothing is configured or detected.
pub open spec fn spec_host_target() -> Seq<char> {
    "x86_64-unknown-linux-gnu"@
}

/// The effective targets of one package: its own list, else the repo's,
/// else the detected candidates; an empty outcome means the host target.
pub open spec fn spec_effective_targets(
    c: &RepoConfig,
    name: Seq<char>,
    info: crate::layout::PkgInfoV,
) -> Seq<Seq<char>> {
    let pc = spec_pkg_cfg_lookup(c.packages@, name);
    let repo_level = match c.targets {
        Some(ref t) => Some(t.deep_view()),
        None => None,
    };
    let picked = spec_pick(spec_opt_targets(pc), repo_level, info.targets);
    if picked.len() == 0 {
        seq![spec_host_target()]
    } else {
        picked
    }
}

/// The effective feature sets and environment of one package: its own,
/// else the repo's, else empty.
pub open spec fn spec_effective_features(c: &RepoConfig, name: Seq<char>) -> Seq<Seq<char>> {
    let pc = spec_pkg_cfg_lookup(c.packages@, name);
    let repo_level = match c.features {
        Some(ref t) => Some(t.deep_view()),
        None => None,
    };
    spec_pick(spec_opt_features(pc), repo_level, Seq::empty())
}

pub open spec fn spec_effective_env(c: &RepoConfig, name: Seq<char>) -> Seq<
    (Seq<char>, Seq<char>),
> {
    let pc = spec_pkg_cfg_lookup(c.packages@, name);
    let repo_level = match c.env {
        Some(ref t) => Some(spec_env_view(t@)),
        None => None,
    };
    match spec_opt_env(pc) {
        Some(t) => t,
        None => match repo_level {
            Some(t) => t,
            None => Seq::empty(),
        },
    }
}

/// One work unit per effective target of the package.
pub open spec fn spec_units(
    c: &RepoConfig,
    name: Seq<char>,
    info: crate::layout::PkgInfoV,
) -> Seq<crate::layout::PkgV> {
    let feats = spec_effective_features(c, name);
    let env = spec_effective_env(c, name);
    spec_effective_targets(c, name, info).map_values(
        |t: Seq<char>| crate::layout::PkgV {
            name: name,
            dir: info.pkg_dir,
            target: t,
            toolchain: info.toolchain,
            features_args: feats,
            env: env,
        },
    )
}

/// Whether `Run(true)` expands to a built-in invocation for this checker;
/// the remaining tools have no heuristic invocation yet, and the synthetic
/// `cargo` pseudo-tool never runs on its own.
pub open spec fn spec_heuristic_on(t: CheckerTool) -> bool {
    match t {
        CheckerTool::Fmt => true,
        CheckerTool::Clippy => true,
        CheckerTool::SemverChecks => true,
        CheckerTool::Audit => true,
        CheckerTool::Mirai => true,
        CheckerTool::Lockbud => true,
        CheckerTool::Rapx => true,
        CheckerTool::Rudra => true,
        CheckerTool::Outdated => true,
        CheckerTool::Geiger => true,
        CheckerTool::Miri => false,
        CheckerTool::Atomvchecker => false,
        CheckerTool::Udeps => false,
        CheckerTool::Cargo => false,
    }
}

use crate::config::resolve::{Resolve, ResolveV, spec_resolve_of, spec_heuristic_cmd};

/// One custom invocation per (unit, step), unit-major.
pub open spec fn spec_custom_entries(
    units: Seq<crate::layout::PkgV>,
    steps: Seq<Seq<char>>,
    t: CheckerTool,
) -> Seq<ResolveV>
    decreases units.len(),
{
    if units.len() == 0 {
        Seq::empty()
    } else {
        steps.map_values(|s: Seq<char>| spec_resolve_of(units[0], t, s)) + spec_custom_entries(
            units.drop_first(),
            steps,
            t,
        )
    }
}

/// The invocations contributed by one binding: a built-in one per unit for
/// an enabled checker with a heuristic invocation, one per unit and step
/// for custom steps, nothing otherwise.
pub open spec fn spec_entry_resolves(e: CmdEntry, units: Seq<crate::layout::PkgV>) -> Seq<
    ResolveV,
> {
    match e.1 {
        CmdSpec::Run(run) => if run && spec_heuristic_on(e.0) {
            units.map_values(
                |u: crate::layout::PkgV| spec_resolve_of(u, e.0, spec_heuristic_cmd(e.0)),
            )
        } else {
            Seq::empty()
        },
        CmdSpec::Steps(steps) => spec_custom_entries(units, steps, e.0),
    }
}

/// The invocations of all bindings, in binding order.
pub open spec fn spec_expand(cmds: Seq<CmdEntry>, units: Seq<crate::layout::PkgV>) -> Seq<
    ResolveV,
>
    decreases cmds.len(),
{
    if cmds.len() == 0 {
        Seq::empty()
    } else {
        spec_entry_resolves(cmds[0], units) + spec_expand(cmds.drop_first(), units)
    }
}

/// The commands in force for one package: the baseline, updated by the
/// repo-level bindings, updated by the package's own bindings.
pub open spec fn spec_merged_cmds(c: &RepoConfig, name: Seq<char>) -> Seq<CmdEntry> {
    let base = super::cmds::spec_merge(
        super::cmds::spec_baseline(
            match c.meta {
                Some(ref m) => m.run_all_checkers,
                None => true,
            },
        ),
        c.cmds@,
    );
    match spec_pkg_cfg_lookup(c.packages@, name) {
        Some(pc) => super::cmds::spec_merge(base, pc.cmds@),
        None => base,
    }
}

/// The whole unsorted plan: each selected package's merged commands expanded
/// over its work units, in selection order.
pub open spec fn spec_all_resolves(
    c: &RepoConfig,
    sel: Seq<(Seq<char>, crate::layout::PkgInfoV)>,
) -> Seq<ResolveV>
    decreases sel.len(),
{
    if sel.len() == 0 {
        Seq::empty()
    } else {
        spec_expand(spec_merged_cmds(c, sel[0].0), spec_units(c, sel[0].0, sel[0].1))
            + spec_all_resolves(c, sel.drop_first())
    }
}

/// The reason resolution fails, if any: an unknown package name first, then
/// an unsupported checker key.
pub open spec fn spec_resolve_err(
    c: &RepoConfig,
    discovered: Seq<(String, crate::layout::PackageInfoShared)>,
    repo: Seq<char>,
) -> Option<ErrorSpec> {
    match spec_first_unknown_pkg(c.packages@, discovered) {
        Some(p) => Some(ErrorSpec::UnknownPackage { pkg: p }),
        None => spec_checker_err(
            c,
            super::cmds::spec_baseline(
                match c.meta {
                    Some(ref m) => m.run_all_checkers,
                    None => true,
                },
            ),
            repo,
        ),
    }
}


/// The skip patterns in force.
pub open spec fn spec_skip_globs(c: &RepoConfig) -> Seq<Seq<char>> {
    match c.meta {
        Some(ref m) => m.skip_pkg_dir_globs.deep_view(),
        None => Seq::empty(),
    }
}

/// Find the sub-configuration listed for a package name.
fn find_pkg_cfg<'a>(m: &'a Vec<(String, RepoConfig)>, name: &str) -> (r: Option<&'a RepoConfig>)
    ensures
        match r {
            Some(pc) => spec_pkg_cfg_lookup(m@, name@) == Some(*pc),
            None => spec_pkg_cfg_lookup(m@, name@) is None,
        },
{
    let n = m.len();
    let mut i: usize = 0;
    while i < n
        invariant
            0 <= i <= n,
            n == m@.len(),
            forall|j: int| 0 <= j < i ==> (#[trigger] m@[j]).0@ != name@,
        decreases n - i,
    {
        if strutil::str_eq(m[i].0.as_str(), name) {
            proof {
                lemma_pkg_cfg_lookup_at(m@, name@, i as int);
            }
            return Some(&m[i].1);
        }
        i += 1;
    }
    proof {
        lemma_pkg_cfg_lookup_none(m@, name@);
    }
    None
}

proof fn lemma_pkg_cfg_lookup_at(m: Seq<(String, RepoConfig)>, name: Seq<char>, i: int)
    requires
        0 <= i < m.len(),
        m[i].0@ == name,
        forall|j: int| 0 <= j < i ==> (#[trigger] m[j]).0@ != name,
    ensures
        spec_pkg_cfg_lookup(m, name) == Some(m[i].1),
        spec_listed(m, name),
    decreases i,
{
    if i > 0 {
        lemma_pkg_cfg_lookup_at(m.drop_first(), name, i - 1);
    }
}

proof fn lemma_pkg_cfg_lookup_none(m: Seq<(String, RepoConfig)>, name: Seq<char>)
    requires
        forall|j: int| 0 <= j < m.len() ==> (#[trigger] m[j]).0@ != name,
    ensures
        spec_pkg_cfg_lookup(m, name) is None,
        !spec_listed(m, name),
    decreases m.len(),
{
    if m.len() > 0 {
        lemma_pkg_cfg_lookup_none(m.drop_first(), name);
    }
}

impl RepoConfig {
    /// The work units of one package: one per effective target, carrying the
    /// effective feature sets and environment.
    fn build_units(&self, name: &str, info: &crate::layout::PackageInfoShared) -> (r: Vec<
        crate::layout::Pkg,
    >)
        ensures
            r@.map_values(|p: crate::layout::Pkg| p@) == spec_units(self, name@, info@),
    {
        let pc = find_pkg_cfg(&self.packages, name);
        let mut picked: Vec<String> = match pc {
            Some(p) => match &p.targets {
                Some(t) => crate::config::resolve::clone_strs(t),
                None => match &self.targets {
                    Some(t) => crate::config::resolve::clone_strs(t),
                    None => crate::config::resolve::clone_strs(&info.targets),
                },
            },
            None => match &self.targets {
                Some(t) => crate::config::resolve::clone_strs(t),
                None => crate::config::resolve::clone_strs(&info.targets),
            },
        };
        proof {
            assert(picked.deep_view() =~= spec_pick(
                spec_opt_targets(spec_pkg_cfg_lookup(self.packages@, name@)),
                match self.targets {
                    Some(ref t) => Some(t.deep_view()),
                    None => None,
                },
                info@.targets,
            ));
        }
        if picked.len() == 0 {
            picked.push("x86_64-unknown-linux-gnu".to_owned());
            proof {
                assert(picked.deep_view() =~= seq![spec_host_target()]);
            }
        }
        let ghost targets = spec_effective_targets(self, name@, info@);
        proof {
            assert(picked.deep_view() == targets);
        }
        let feats: Vec<String> = match pc {
            Some(p) => match &p.features {
                Some(t) => crate::config::resolve::clone_strs(t),
                None => match &self.features {
                    Some(t) => crate::config::resolve::clone_strs(t),
                    None => Vec::new(),
                },
            },
            None => match &self.features {
                Some(t) => crate::config::resolve::clone_strs(t),
                None => Vec::new(),
            },
        };
        proof {
            assert(feats.deep_view() =~= spec_effective_features(self, name@));
        }
        let env: Vec<(String, String)> = match pc {
            Some(p) => match &p.env {
                Some(t) => crate::config::resolve::clone_pairs(t),
                None => match &self.env {
                    Some(t) => crate::config::resolve::clone_pairs(t),
                    None => Vec::new(),
                },
            },
            None => match &self.env {
                Some(t) => crate::config::resolve::clone_pairs(t),
                None => Vec::new(),
            },
        };
        proof {
            assert(spec_env_view(env@) =~= spec_effective_env(self, name@));
        }
        let mut r: Vec<crate::layout::Pkg> = Vec::new();
        let n = picked.len();
        let mut i: usize = 0;
        proof {
            assert(r@.map_values(|p: crate::layout::Pkg| p@) =~= targets.subrange(0, 0).map_values(
                |t: Seq<char>| crate::layout::PkgV {
                    name: name@,
                    dir: info@.pkg_dir,
                    target: t,
                    toolchain: info@.toolchain,
                    features_args: spec_effective_features(self, name@),
                    env: spec_effective_env(self, name@),
                },
            ));
        }
        while i < n
            invariant
                0 <= i <= n,
                n == picked@.len(),
                picked.deep_view() == targets,
                feats.deep_view() == spec_effective_features(self, name@),
                spec_env_view(env@) == spec_effective_env(self, name@),
                r@.map_values(|p: crate::layout::Pkg| p@) == targets.subrange(0, i as int).map_values(
                    |t: Seq<char>| crate::layout::PkgV {
                        name: name@,
                        dir: info@.pkg_dir,
                        target: t,
                        toolchain: info@.toolchain,
                        features_args: spec_effective_features(self, name@),
                        env: spec_effective_env(self, name@),
                    },
                ),
            decreases n - i,
        {
            let unit = crate::layout::Pkg {
                name: name.to_owned(),
                dir: info.pkg_dir.clone(),
                target: picked[i].clone(),
                toolchain: info.toolchain.clone(),
                features_args: crate::config::resolve::clone_strs(&feats),
                env: crate::config::resolve::clone_pairs(&env),
            };
            let ghost uv = unit@;
            let ghost oldr = r@;
            let ghost oldmap = r@.map_values(|p: crate::layout::Pkg| p@);
            r.push(unit);
            proof {
                assert(targets[i as int] == picked.deep_view()[i as int]);
                assert(picked.deep_view()[i as int] == picked@[i as int]@);
                assert(uv == (crate::layout::PkgV {
                    name: name@,
                    dir: info@.pkg_dir,
                    target: targets[i as int],
                    toolchain: info@.toolchain,
                    features_args: spec_effective_features(self, name@),
                    env: spec_effective_env(self, name@),
                }));
                oldr.lemma_push_map_commute(|p: crate::layout::Pkg| p@, r@[r@.len() - 1]);
                assert(r@[r@.len() - 1]@ == uv);
                assert(targets.subrange(0, i + 1) =~= targets.subrange(0, i as int).push(
                    targets[i as int],
                ));
                targets.subrange(0, i as int).lemma_push_map_commute(
                    |t: Seq<char>| crate::layout::PkgV {
                        name: name@,
                        dir: info@.pkg_dir,
                        target: t,
                        toolchain: info@.toolchain,
                        features_args: spec_effective_features(self, name@),
                        env: spec_effective_env(self, name@),
                    },
                    targets[i as int],
                );
                assert(r@.map_values(|p: crate::layout::Pkg| p@) =~= oldmap.push(uv));
                assert(targets.subrange(0, i + 1).map_values(
                    |t: Seq<char>| crate::layout::PkgV {
                        name: name@,
                        dir: info@.pkg_dir,
                        target: t,
                        toolchain: info@.toolchain,
                        features_args: spec_effective_features(self, name@),
                        env: spec_effective_env(self, name@),
                    },
                ) =~= oldmap.push(uv));
            }
            i += 1;
        }
        proof {
            assert(targets.subrange(0, n as int) =~= targets);
        }
        r
    }
}


/// The views of a built plan.
pub open spec fn spec_plan_view(s: Seq<Resolve>) -> Seq<ResolveV> {
    s.map_values(|x: Resolve| x@)
}

proof fn lemma_custom_entries_concat(
    a: Seq<crate::layout::PkgV>,
    b: Seq<crate::layout::PkgV>,
    steps: Seq<Seq<char>>,
    t: CheckerTool,
)
    ensures
        spec_custom_entries(a + b, steps, t) == spec_custom_entries(a, steps, t)
            + spec_custom_entries(b, steps, t),
    decreases a.len(),
{
    if a.len() == 0 {
        assert(a + b =~= b);
        assert(Seq::<ResolveV>::empty() + spec_custom_entries(b, steps, t) =~= spec_custom_entries(
            b,
            steps,
            t,
        ));
    } else {
        assert((a + b).drop_first() =~= a.drop_first() + b);
        lemma_custom_entries_concat(a.drop_first(), b, steps, t);
        assert((a + b)[0] == a[0]);
        let hd = steps.map_values(|st: Seq<char>| spec_resolve_of(a[0], t, st));
        assert(hd + (spec_custom_entries(a.drop_first(), steps, t) + spec_custom_entries(
            b,
            steps,
            t,
        )) =~= (hd + spec_custom_entries(a.drop_first(), steps, t)) + spec_custom_entries(
            b,
            steps,
            t,
        ));
    }
}

/// Whether `Run(true)` expands for this checker.
fn heuristic_on(t: CheckerTool) -> (r: bool)
    ensures
        r == spec_heuristic_on(t),
{
    match t {
        CheckerTool::Fmt => true,
        CheckerTool::Clippy => true,
        CheckerTool::SemverChecks => true,
        CheckerTool::Audit => true,
        CheckerTool::Mirai => true,
        CheckerTool::Lockbud => true,
        CheckerTool::Rapx => true,
        CheckerTool::Rudra => true,
        CheckerTool::Outdated => true,
        CheckerTool::Geiger => true,
        CheckerTool::Miri => false,
        CheckerTool::Atomvchecker => false,
        CheckerTool::Udeps => false,
        CheckerTool::Cargo => false,
    }
}

/// Append the invocations of every binding in `cmds`, expanded over `units`,
/// to the plan.
fn resolve_for_single_pkg(cmds: &Cmds, units: &Vec<crate::layout::Pkg>, v: &mut Vec<Resolve>)
    ensures
        spec_plan_view(final(v)@) == spec_plan_view(old(v)@) + spec_expand(
            cmds@,
            units@.map_values(|p: crate::layout::Pkg| p@),
        ),
{
    let ghost uview = units@.map_values(|p: crate::layout::Pkg| p@);
    let n = cmds.len();
    let mut i: usize = 0;
    proof {
        assert(cmds@.subrange(0, 0) =~= Seq::<CmdEntry>::empty());
        assert(spec_plan_view(v@) =~= spec_plan_view(old(v)@) + spec_expand(
            cmds@.subrange(0, 0),
            uview,
        ));
    }
    while i < n
        invariant
            0 <= i <= n,
            n == cmds@.len(),
            uview == units@.map_values(|p: crate::layout::Pkg| p@),
            spec_plan_view(v@) == spec_plan_view(old(v)@) + spec_expand(
                cmds@.subrange(0, i as int),
                uview,
            ),
        decreases n - i,
    {
        let t = cmds.key_at(i);
        let ghost mid = spec_plan_view(v@);
        match cmds.cmd_at(i) {
            Cmd::Run(run) => {
                if *run && heuristic_on(t) {
                    let m = units.len();
                    let mut j: usize = 0;
                    proof {
                        assert(uview.subrange(0, 0).map_values(
                            |u: crate::layout::PkgV| spec_resolve_of(u, t, spec_heuristic_cmd(t)),
                        ) =~= Seq::<ResolveV>::empty());
                        assert(spec_plan_view(v@) =~= mid + uview.subrange(0, 0).map_values(
                            |u: crate::layout::PkgV| spec_resolve_of(u, t, spec_heuristic_cmd(t)),
                        ));
                    }
                    while j < m
                        invariant
                            0 <= j <= m,
                            0 <= i < n,
                            m == units@.len(),
                            uview == units@.map_values(|p: crate::layout::Pkg| p@),
                            spec_plan_view(v@) == mid + uview.subrange(0, j as int).map_values(
                                |u: crate::layout::PkgV| spec_resolve_of(
                                    u,
                                    t,
                                    spec_heuristic_cmd(t),
                                ),
                            ),
                        decreases m - j,
                    {
                        let entry = Resolve::heuristic(&units[j], t);
                        let ghost ev = entry@;
                        let ghost oldv = v@;
                        v.push(entry);
                        proof {
                            oldv.lemma_push_map_commute(|x: Resolve| x@, v@[v@.len() - 1]);
                            assert(v@[v@.len() - 1]@ == ev);
                            assert(uview[j as int] == units@[j as int]@);
                            assert(ev == spec_resolve_of(uview[j as int], t, spec_heuristic_cmd(t)));
                            assert(uview.subrange(0, j + 1) =~= uview.subrange(0, j as int).push(
                                uview[j as int],
                            ));
                            uview.subrange(0, j as int).lemma_push_map_commute(
                                |u: crate::layout::PkgV| spec_resolve_of(
                                    u,
                                    t,
                                    spec_heuristic_cmd(t),
                                ),
                                uview[j as int],
                            );
                            assert(spec_plan_view(v@) =~= mid + uview.subrange(0, j + 1).map_values(
                                |u: crate::layout::PkgV| spec_resolve_of(
                                    u,
                                    t,
                                    spec_heuristic_cmd(t),
                                ),
                            ));
                        }
                        j += 1;
                    }
                    proof {
                        assert(uview.subrange(0, m as int) =~= uview);
                        assert(spec_entry_resolves(cmds@[i as int], uview) == uview.map_values(
                            |u: crate::layout::PkgV| spec_resolve_of(u, t, spec_heuristic_cmd(t)),
                        ));
                    }
                } else {
                    proof {
                        assert(spec_entry_resolves(cmds@[i as int], uview) =~= Seq::<
                            ResolveV,
                        >::empty());
                        assert(spec_plan_view(v@) =~= mid + spec_entry_resolves(
                            cmds@[i as int],
                            uview,
                        ));
                    }
                }
            },
            Cmd::Steps(steps) => {
                let ghost st = steps.deep_view();
                let m = units.len();
                let mut j: usize = 0;
                proof {
                    assert(spec_custom_entries(uview.subrange(0, 0), st, t) =~= Seq::<
                        ResolveV,
                    >::empty());
                    assert(spec_plan_view(v@) =~= mid + spec_custom_entries(
                        uview.subrange(0, 0),
                        st,
                        t,
                    ));
                }
                while j < m
                    invariant
                        0 <= j <= m,
                        0 <= i < n,
                        m == units@.len(),
                        st == steps.deep_view(),
                        uview == units@.map_values(|p: crate::layout::Pkg| p@),
                        spec_plan_view(v@) == mid + spec_custom_entries(
                            uview.subrange(0, j as int),
                            st,
                            t,
                        ),
                    decreases m - j,
                {
                    let sm = steps.len();
                    let mut k: usize = 0;
                    let ghost mid2 = spec_plan_view(v@);
                    proof {
                        assert(st.subrange(0, 0).map_values(
                            |sx: Seq<char>| spec_resolve_of(uview[j as int], t, sx),
                        ) =~= Seq::<ResolveV>::empty());
                        assert(spec_plan_view(v@) =~= mid2 + st.subrange(0, 0).map_values(
                            |sx: Seq<char>| spec_resolve_of(uview[j as int], t, sx),
                        ));
                    }
                    while k < sm
                        invariant
                            0 <= k <= sm,
                            0 <= j < m,
                            0 <= i < n,
                            m == units@.len(),
                            sm == steps@.len(),
                            st == steps.deep_view(),
                            uview == units@.map_values(|p: crate::layout::Pkg| p@),
                            spec_plan_view(v@) == mid2 + st.subrange(0, k as int).map_values(
                                |sx: Seq<char>| spec_resolve_of(uview[j as int], t, sx),
                            ),
                        decreases sm - k,
                    {
                        let entry = Resolve::of_pkg(&units[j], t, steps[k].clone());
                        let ghost ev = entry@;
                        let ghost oldv = v@;
                        v.push(entry);
                        proof {
                            oldv.lemma_push_map_commute(|x: Resolve| x@, v@[v@.len() - 1]);
                            assert(v@[v@.len() - 1]@ == ev);
                            assert(uview[j as int] == units@[j as int]@);
                            assert(st[k as int] == steps@[k as int]@);
                            assert(ev == spec_resolve_of(uview[j as int], t, st[k as int]));
                            assert(st.subrange(0, k + 1) =~= st.subrange(0, k as int).push(
                                st[k as int],
                            ));
                            st.subrange(0, k as int).lemma_push_map_commute(
                                |sx: Seq<char>| spec_resolve_of(uview[j as int], t, sx),
                                st[k as int],
                            );
                            assert(spec_plan_view(v@) =~= mid2 + st.subrange(0, k + 1).map_values(
                                |sx: Seq<char>| spec_resolve_of(uview[j as int], t, sx),
                            ));
                        }
                        k += 1;
                    }
                    proof {
                        let prefix = uview.subrange(0, j as int);
                        let one = seq![uview[j as int]];
                        lemma_custom_entries_concat(prefix, one, st, t);
                        assert(prefix + one =~= uview.subrange(0, j + 1));
                        assert(one.drop_first() =~= Seq::<crate::layout::PkgV>::empty());
                        assert(spec_custom_entries(one.drop_first(), st, t) =~= Seq::<
                            ResolveV,
                        >::empty());
                        assert(st.subrange(0, sm as int) =~= st);
                        assert(spec_custom_entries(one, st, t) =~= st.map_values(
                            |sx: Seq<char>| spec_resolve_of(uview[j as int], t, sx),
                        ));
                        assert(spec_plan_view(v@) =~= mid + spec_custom_entries(
                            uview.subrange(0, j + 1),
                            st,
                            t,
                        ));
                    }
                    j += 1;
                }
                proof {
                    assert(uview.subrange(0, m as int) =~= uview);
                    assert(spec_entry_resolves(cmds@[i as int], uview) == spec_custom_entries(
                        uview,
                        st,
                        t,
                    ));
                }
            },
        }
        proof {
            let pre = cmds@.subrange(0, i as int);
            let one = seq![cmds@[i as int]];
            lemma_expand_concat(pre, one, uview);
            assert(pre + one =~= cmds@.subrange(0, i + 1));
            assert(one.drop_first() =~= Seq::<CmdEntry>::empty());
            assert(spec_expand(one.drop_first(), uview) =~= Seq::<ResolveV>::empty());
            assert(spec_expand(one, uview) =~= spec_entry_resolves(cmds@[i as int], uview));
            assert(spec_plan_view(v@) =~= spec_plan_view(old(v)@) + spec_expand(
                cmds@.subrange(0, i + 1),
                uview,
            ));
        }
        i += 1;
    }
    proof {
        assert(cmds@.subrange(0, n as int) =~= cmds@);
    }
}

proof fn lemma_expand_concat(a: Seq<CmdEntry>, b: Seq<CmdEntry>, units: Seq<crate::layout::PkgV>)
    ensures
        spec_expand(a + b, units) == spec_expand(a, units) + spec_expand(b, units),
    decreases a.len(),
{
    if a.len() == 0 {
        assert(a + b =~= b);
        assert(Seq::<ResolveV>::empty() + spec_expand(b, units) =~= spec_expand(b, units));
    } else {
        assert((a + b).drop_first() =~= a.drop_first() + b);
        lemma_expand_concat(a.drop_first(), b, units);
        assert((a + b)[0] == a[0]);
        assert(spec_entry_resolves(a[0], units) + (spec_expand(a.drop_first(), units) + spec_expand(
            b,
            units,
        )) =~= (spec_entry_resolves(a[0], units) + spec_expand(a.drop_first(), units))
            + spec_expand(b, units));
    }
}


proof fn lemma_selected_concat(
    a: Seq<(Seq<char>, crate::layout::PkgInfoV)>,
    b: Seq<(Seq<char>, crate::layout::PkgInfoV)>,
    conf_pkgs: Seq<(String, RepoConfig)>,
    skip: Seq<Seq<char>>,
)
    ensures
        spec_selected(a + b, conf_pkgs, skip) == spec_selected(a, conf_pkgs, skip) + spec_selected(
            b,
            conf_pkgs,
            skip,
        ),
    decreases a.len(),
{
    if a.len() == 0 {
        assert(a + b =~= b);
        assert(Seq::<(Seq<char>, crate::layout::PkgInfoV)>::empty() + spec_selected(
            b,
            conf_pkgs,
            skip,
        ) =~= spec_selected(b, conf_pkgs, skip));
    } else {
        assert((a + b).drop_first() =~= a.drop_first() + b);
        lemma_selected_concat(a.drop_first(), b, conf_pkgs, skip);
        assert((a + b)[0] == a[0]);
        let keep = spec_listed(conf_pkgs, a[0].0) || !spec_skip_match(skip, a[0].1.pkg_dir);
        if keep {
            assert(seq![a[0]] + (spec_selected(a.drop_first(), conf_pkgs, skip) + spec_selected(
                b,
                conf_pkgs,
                skip,
            )) =~= (seq![a[0]] + spec_selected(a.drop_first(), conf_pkgs, skip)) + spec_selected(
                b,
                conf_pkgs,
                skip,
            ));
        }
    }
}

proof fn lemma_first_unknown_pkg_at(
    conf_pkgs: Seq<(String, RepoConfig)>,
    discovered: Seq<(String, crate::layout::PackageInfoShared)>,
    i: int,
)
    requires
        0 <= i < conf_pkgs.len(),
        !crate::layout::spec_pkgs_contain(discovered, conf_pkgs[i].0@),
        forall|j: int|
            0 <= j < i ==> crate::layout::spec_pkgs_contain(
                discovered,
                (#[trigger] conf_pkgs[j]).0@,
            ),
    ensures
        spec_first_unknown_pkg(conf_pkgs, discovered) == Some(conf_pkgs[i].0@),
    decreases i,
{
    if i > 0 {
        lemma_first_unknown_pkg_at(conf_pkgs.drop_first(), discovered, i - 1);
    }
}

proof fn lemma_first_unknown_pkg_none(
    conf_pkgs: Seq<(String, RepoConfig)>,
    discovered: Seq<(String, crate::layout::PackageInfoShared)>,
)
    requires
        forall|j: int|
            0 <= j < conf_pkgs.len() ==> crate::layout::spec_pkgs_contain(
                discovered,
                (#[trigger] conf_pkgs[j]).0@,
            ),
    ensures
        spec_first_unknown_pkg(conf_pkgs, discovered) is None,
    decreases conf_pkgs.len(),
{
    if conf_pkgs.len() > 0 {
        lemma_first_unknown_pkg_none(conf_pkgs.drop_first(), discovered);
    }
}

/// Find the first key of `cmds` that the baseline does not allow.
fn first_unknown_key(cmds: &Cmds, base: &Cmds) -> (r: Option<CheckerTool>)
    ensures
        match r {
            Some(k) => spec_first_unknown_key(cmds@, base@) == Some(k),
            None => spec_first_unknown_key(cmds@, base@) is None,
        },
{
    let n = cmds.len();
    let mut i: usize = 0;
    while i < n
        invariant
            0 <= i <= n,
            n == cmds@.len(),
            forall|j: int| 0 <= j < i ==> spec_has_key(base@, (#[trigger] cmds@[j]).0),
        decreases n - i,
    {
        let k = cmds.key_at(i);
        if !base.contains_key(k) {
            proof {
                lemma_first_unknown_key_at(cmds@, base@, i as int);
            }
            return Some(k);
        }
        i += 1;
    }
    proof {
        lemma_first_unknown_key_none(cmds@, base@);
    }
    None
}

proof fn lemma_first_unknown_key_at(cmds: Seq<CmdEntry>, base: Seq<CmdEntry>, i: int)
    requires
        0 <= i < cmds.len(),
        !spec_has_key(base, cmds[i].0),
        forall|j: int| 0 <= j < i ==> spec_has_key(base, (#[trigger] cmds[j]).0),
    ensures
        spec_first_unknown_key(cmds, base) == Some(cmds[i].0),
    decreases i,
{
    if i > 0 {
        lemma_first_unknown_key_at(cmds.drop_first(), base, i - 1);
    }
}

proof fn lemma_first_unknown_key_none(cmds: Seq<CmdEntry>, base: Seq<CmdEntry>)
    requires
        forall|j: int| 0 <= j < cmds.len() ==> spec_has_key(base, (#[trigger] cmds[j]).0),
    ensures
        spec_first_unknown_key(cmds, base) is None,
    decreases cmds.len(),
{
    if cmds.len() > 0 {
        lemma_first_unknown_key_none(cmds.drop_first(), base);
    }
}

proof fn lemma_checker_err_pkgs_at(
    m: Seq<(String, RepoConfig)>,
    base: Seq<CmdEntry>,
    repo: Seq<char>,
    i: int,
    k: CheckerTool,
)
    requires
        0 <= i < m.len(),
        spec_first_unknown_key(m[i].1.cmds@, base) == Some(k),
        forall|j: int|
            0 <= j < i ==> spec_first_unknown_key((#[trigger] m[j]).1.cmds@, base) is None,
    ensures
        spec_checker_err_pkgs(m, base, repo) == Some(
            ErrorSpec::UnknownChecker { checker: k, repo, pkg: Some(m[i].0@) },
        ),
    decreases i,
{
    if i > 0 {
        lemma_checker_err_pkgs_at(m.drop_first(), base, repo, i - 1, k);
    }
}

proof fn lemma_checker_err_pkgs_none(
    m: Seq<(String, RepoConfig)>,
    base: Seq<CmdEntry>,
    repo: Seq<char>,
)
    requires
        forall|j: int|
            0 <= j < m.len() ==> spec_first_unknown_key((#[trigger] m[j]).1.cmds@, base) is None,
    ensures
        spec_checker_err_pkgs(m, base, repo) is None,
    decreases m.len(),
{
    if m.len() > 0 {
        lemma_checker_err_pkgs_none(m.drop_first(), base, repo);
    }
}

impl RepoConfig {
    /// Every package named under `packages` must be among the discovered
    /// ones; the first that is not fails the resolution with its name.
    fn validate_pkgs(&self, pkgs: &crate::layout::Packages) -> (r: Result<(), Error>)
        ensures
            match r {
                Ok(()) => spec_first_unknown_pkg(self.packages@, pkgs.entries@) is None,
                Err(e) => (match spec_first_unknown_pkg(self.packages@, pkgs.entries@) {
                    Some(p) => e@ == (ErrorSpec::UnknownPackage { pkg: p }),
                    None => false,
                }),
            },
    {
        let n = self.packages.len();
        let mut i: usize = 0;
        while i < n
            invariant
                0 <= i <= n,
                n == self.packages@.len(),
                forall|j: int|
                    0 <= j < i ==> crate::layout::spec_pkgs_contain(
                        pkgs.entries@,
                        (#[trigger] self.packages@[j]).0@,
                    ),
            decreases n - i,
        {
            let name = &self.packages[i].0;
            if !pkgs.contains_key(name.as_str()) {
                proof {
                    lemma_first_unknown_pkg_at(self.packages@, pkgs.entries@, i as int);
                }
                return Err(Error::UnknownPackage { pkg: name.clone() });
            }
            i += 1;
        }
        proof {
            lemma_first_unknown_pkg_none(self.packages@, pkgs.entries@);
        }
        Ok(())
    }

    /// Every checker key in the tree must be one the baseline allows to be
    /// configured (the synthetic `cargo` pseudo-tool is not).
    fn validate_checker(&self, repo: &str, base: &Cmds) -> (r: Result<(), Error>)
        ensures
            match r {
                Ok(()) => spec_checker_err(self, base@, repo@) is None,
                Err(e) => spec_checker_err(self, base@, repo@) == Some(e@),
            },
    {
        if let Some(k) = first_unknown_key(&self.cmds, base) {
            return Err(
                Error::UnknownChecker { checker: k, repo: repo.to_owned(), pkg: None },
            );
        }
        let n = self.packages.len();
        let mut i: usize = 0;
        while i < n
            invariant
                0 <= i <= n,
                n == self.packages@.len(),
                spec_first_unknown_key(self.cmds@, base@) is None,
                forall|j: int|
                    0 <= j < i ==> spec_first_unknown_key(
                        (#[trigger] self.packages@[j]).1.cmds@,
                        base@,
                    ) is None,
            decreases n - i,
        {
            let (pkg_name, pc) = (&self.packages[i].0, &self.packages[i].1);
            if let Some(k) = first_unknown_key(&pc.cmds, base) {
                proof {
                    lemma_checker_err_pkgs_at(self.packages@, base@, repo@, i as int, k);
                }
                return Err(
                    Error::UnknownChecker {
                        checker: k,
                        repo: repo.to_owned(),
                        pkg: Some(pkg_name.clone()),
                    },
                );
            }
            i += 1;
        }
        proof {
            lemma_checker_err_pkgs_none(self.packages@, base@, repo@);
        }
        Ok(())
    }

    /// The packages selected for this run: the discovered set, validated
    /// against the `packages` table, with skip filters applied (a package
    /// listed under `packages` is never skipped).
    pub fn selected_pkgs(&self, packages: &crate::layout::Packages) -> (r: Result<
        Vec<(String, crate::layout::PackageInfoShared)>,
        Error,
    >)
        ensures
            match r {
                Ok(v) => spec_first_unknown_pkg(self.packages@, packages.entries@) is None
                    && crate::layout::pkgs_entries_view(v@) == spec_selected(
                    crate::layout::pkgs_entries_view(packages.entries@),
                    self.packages@,
                    spec_skip_globs(self),
                ),
                Err(e) => (match spec_first_unknown_pkg(self.packages@, packages.entries@) {
                    Some(p) => e@ == (ErrorSpec::UnknownPackage { pkg: p }),
                    None => false,
                }),
            },
    {
        if let Err(e) = self.validate_pkgs(packages) {
            return Err(e);
        }
        let skip = self.skip_pkg_dir_globs();
        let ghost skipv = spec_skip_globs(self);
        proof {
            assert(skip.deep_view() =~= skipv);
        }
        let ghost dview = crate::layout::pkgs_entries_view(packages.entries@);
        let mut sel: Vec<(String, crate::layout::PackageInfoShared)> = Vec::new();
        let n = packages.entries.len();
        let mut i: usize = 0;
        proof {
            assert(crate::layout::pkgs_entries_view(sel@) =~= spec_selected(
                dview.subrange(0, 0),
                self.packages@,
                skipv,
            ));
        }
        while i < n
            invariant
                0 <= i <= n,
                n == packages.entries@.len(),
                skip.deep_view() == skipv,
                skipv == spec_skip_globs(self),
                dview == crate::layout::pkgs_entries_view(packages.entries@),
                crate::layout::pkgs_entries_view(sel@) == spec_selected(
                    dview.subrange(0, i as int),
                    self.packages@,
                    skipv,
                ),
            decreases n - i,
        {
            let name = &packages.entries[i].0;
            let info = &packages.entries[i].1;
            proof {
                assert(dview[i as int] == (name@, info@));
            }
            let listed = match find_pkg_cfg(&self.packages, name.as_str()) {
                Some(_) => {
                    proof {
                        lemma_lookup_implies_listed(self.packages@, name@);
                    }
                    true
                },
                None => false,
            };
            let mut skipped = false;
            if !listed {
                let gn = skip.len();
                let mut g: usize = 0;
                while g < gn && !skipped
                    invariant
                        0 <= g <= gn,
                        gn == skip@.len(),
                        skip.deep_view() == skipv,
                        !skipped ==> forall|j: int|
                            0 <= j < g ==> !(glob_pat_ok(#[trigger] skipv[j]) && glob_matches(
                                skipv[j],
                                info.pkg_dir@,
                            )),
                        skipped ==> spec_skip_match(skipv, info.pkg_dir@),
                    decreases gn - g,
                {
                    proof {
                        assert(skipv[g as int] == skip@[g as int]@);
                    }
                    match glob_match(skip[g].as_str(), info.pkg_dir.as_str()) {
                        Some(true) => {
                            skipped = true;
                        },
                        _ => {},
                    }
                    g += 1;
                }
                proof {
                    if !skipped {
                        assert(!spec_skip_match(skipv, info.pkg_dir@));
                    }
                }
            }
            let keep = listed || !skipped;
            proof {
                if !listed {
                    lemma_not_lookup_implies_not_listed(self.packages@, name@);
                }
                assert(keep == (spec_listed(self.packages@, name@) || !spec_skip_match(
                    skipv,
                    info.pkg_dir@,
                )));
            }
            if keep {
                let pair = (name.clone(), info.duplicate());
                let ghost pv = pair;
                let ghost oldsel = sel@;
                sel.push(pair);
                proof {
                    oldsel.lemma_push_map_commute(
                        |e: (String, crate::layout::PackageInfoShared)| (e.0@, e.1@),
                        sel@[sel@.len() - 1],
                    );
                    assert(sel@[sel@.len() - 1] == pv);
                    assert((pv.0@, pv.1@) == dview[i as int]);
                }
            }
            proof {
                let pre = dview.subrange(0, i as int);
                let one = seq![dview[i as int]];
                lemma_selected_concat(pre, one, self.packages@, skipv);
                assert(pre + one =~= dview.subrange(0, i + 1));
                assert(one.drop_first() =~= Seq::<(Seq<char>, crate::layout::PkgInfoV)>::empty());
                assert(spec_selected(one.drop_first(), self.packages@, skipv) =~= Seq::<
                    (Seq<char>, crate::layout::PkgInfoV),
                >::empty());
                if keep {
                    assert(spec_selected(one, self.packages@, skipv) =~= seq![dview[i as int]]);
                    assert(crate::layout::pkgs_entries_view(sel@) =~= spec_selected(
                        dview.subrange(0, i + 1),
                        self.packages@,
                        skipv,
                    ));
                } else {
                    assert(spec_selected(one, self.packages@, skipv) =~= Seq::<
                        (Seq<char>, crate::layout::PkgInfoV),
                    >::empty());
                    assert(crate::layout::pkgs_entries_view(sel@) =~= spec_selected(
                        dview.subrange(0, i + 1),
                        self.packages@,
                        skipv,
                    ));
                }
            }
            i += 1;
        }
        proof {
            assert(dview.subrange(0, n as int) =~= dview);
        }
        Ok(sel)
    }

    /// Resolve this configuration over the discovered packages into the full
    /// invocation plan, sorted by package name and checker. The plan holds
    /// exactly the invocations of every selected package's merged commands;
    /// an unknown package name or an unconfigurable checker key fails the
    /// whole resolution.
    pub fn resolve(&self, repo: &str, packages: &crate::layout::Packages) -> (r: Result<
        Vec<Resolve>,
        Error,
    >)
        ensures
            match r {
                Ok(v) => spec_resolve_err(self, packages.entries@, repo@) is None
                    && crate::config::resolve::spec_sorted(spec_plan_view(v@)) && spec_plan_view(
                    v@,
                ).to_multiset() == spec_all_resolves(
                    self,
                    spec_selected(
                        crate::layout::pkgs_entries_view(packages.entries@),
                        self.packages@,
                        spec_skip_globs(self),
                    ),
                ).to_multiset(),
                Err(e) => spec_resolve_err(self, packages.entries@, repo@) == Some(e@),
            },
    {
        let selected = match self.selected_pkgs(packages) {
            Ok(s) => s,
            Err(e) => {
                return Err(e);
            },
        };
        let run_all = self.run_all_checkers();
        let base = Cmds::new_with_all_checkers_enabled(run_all);
        if let Err(e) = self.validate_checker(repo, &base) {
            return Err(e);
        }
        let ghost selview = crate::layout::pkgs_entries_view(selected@);
        let mut v: Vec<Resolve> = Vec::new();
        let n = selected.len();
        let mut i: usize = 0;
        proof {
            assert(spec_plan_view(v@) =~= spec_all_resolves(self, selview.subrange(0, 0)));
        }
        while i < n
            invariant
                0 <= i <= n,
                n == selected@.len(),
                base@ == super::cmds::spec_baseline(
                    match self.meta {
                        Some(ref m) => m.run_all_checkers,
                        None => true,
                    },
                ),
                selview == crate::layout::pkgs_entries_view(selected@),
                spec_plan_view(v@) == spec_all_resolves(self, selview.subrange(0, i as int)),
            decreases n - i,
        {
            let name = &selected[i].0;
            let info = &selected[i].1;
            proof {
                assert(selview[i as int] == (name@, info@));
            }
            let mut cmds = base.duplicate();
            cmds.merge(&self.cmds);
            match find_pkg_cfg(&self.packages, name.as_str()) {
                Some(pc) => {
                    cmds.merge(&pc.cmds);
                },
                None => {},
            }
            proof {
                assert(cmds@ == spec_merged_cmds(self, name@));
            }
            let units = self.build_units(name.as_str(), info);
            let ghost mid = spec_plan_view(v@);
            resolve_for_single_pkg(&cmds, &units, &mut v);
            proof {
                let pre = selview.subrange(0, i as int);
                let one = seq![selview[i as int]];
                lemma_all_resolves_concat(self, pre, one);
                assert(pre + one =~= selview.subrange(0, i + 1));
                assert(one.drop_first() =~= Seq::<(Seq<char>, crate::layout::PkgInfoV)>::empty());
                assert(spec_all_resolves(self, one.drop_first()) =~= Seq::<ResolveV>::empty());
                assert(spec_all_resolves(self, one) =~= spec_expand(
                    spec_merged_cmds(self, selview[i as int].0),
                    spec_units(self, selview[i as int].0, selview[i as int].1),
                ));
                assert(spec_plan_view(v@) =~= spec_all_resolves(self, selview.subrange(0, i + 1)));
            }
            i += 1;
        }
        proof {
            assert(selview.subrange(0, n as int) =~= selview);
        }
        crate::config::resolve::sort_resolves(&mut v);
        Ok(v)
    }
}

proof fn lemma_lookup_implies_listed(m: Seq<(String, RepoConfig)>, name: Seq<char>)
    requires
        spec_pkg_cfg_lookup(m, name) is Some,
    ensures
        spec_listed(m, name),
    decreases m.len(),
{
    if m.len() > 0 {
        if m[0].0@ == name {
            assert(m[0].0@ == name);
        } else {
            lemma_lookup_implies_listed(m.drop_first(), name);
            let i = choose|i: int|
                0 <= i < m.drop_first().len() && (#[trigger] m.drop_first()[i]).0@ == name;
            assert(m[i + 1].0@ == name);
        }
    }
}

proof fn lemma_not_lookup_implies_not_listed(m: Seq<(String, RepoConfig)>, name: Seq<char>)
    requires
        spec_pkg_cfg_lookup(m, name) is None,
    ensures
        !spec_listed(m, name),
    decreases m.len(),
{
    if m.len() > 0 {
        lemma_not_lookup_implies_not_listed(m.drop_first(), name);
        if spec_listed(m, name) {
            let i = choose|i: int| 0 <= i < m.len() && (#[trigger] m[i]).0@ == name;
            if i == 0 {
                assert(false);
            } else {
                assert(m.drop_first()[i - 1].0@ == name);
                assert(false);
            }
        }
    }
}

proof fn lemma_all_resolves_concat(
    c: &RepoConfig,
    a: Seq<(Seq<char>, crate::layout::PkgInfoV)>,
    b: Seq<(Seq<char>, crate::layout::PkgInfoV)>,
)
    ensures
        spec_all_resolves(c, a + b) == spec_all_resolves(c, a) + spec_all_resolves(c, b),
    decreases a.len(),
{
    if a.len() == 0 {
        assert(a + b =~= b);
        assert(Seq::<ResolveV>::empty() + spec_all_resolves(c, b) =~= spec_all_resolves(c, b));
    } else {
        assert((a + b).drop_first() =~= a.drop_first() + b);
        lemma_all_resolves_concat(c, a.drop_first(), b);
        assert((a + b)[0] == a[0]);
        let hd = spec_expand(spec_merged_cmds(c, a[0].0), spec_units(c, a[0].0, a[0].1));
        assert(hd + (spec_all_resolves(c, a.drop_first()) + spec_all_resolves(c, b)) =~= (hd
            + spec_all_resolves(c, a.drop_first())) + spec_all_resolves(c, b));
    }
}


proof fn lemma_baseline_unique(run: bool)
    ensures
        super::cmds::spec_unique_keys(super::cmds::spec_baseline(run)),
{
    let b = super::cmds::spec_baseline(run);
    assert forall|i: int, j: int| 0 <= i < j < b.len() implies (#[trigger] b[i]).0 != (
    #[trigger] b[j]).0 by {
        assert(b.len() == 13);
    }
}

/// Package overrides do not leak: in the commands in force for a package
/// whose own sub-configuration binds a checker, that binding wins; and in
/// the commands in force for any package without a sub-configuration (in
/// particular every sibling of the overriding package), the repo-level
/// binding is in force — or the baseline where the repo binds nothing.
/// `resolve` plans each selected package exactly from these merged commands.
pub proof fn lemma_pkg_override_no_cross_contamination(
    c: &RepoConfig,
    pkg: Seq<char>,
    sibling: Seq<char>,
    k: CheckerTool,
)
    requires
        super::cmds::spec_unique_keys(c.cmds@),
        spec_pkg_cfg_lookup(c.packages@, pkg) is Some,
        super::cmds::spec_unique_keys(spec_pkg_cfg_lookup(c.packages@, pkg)->Some_0.cmds@),
        super::cmds::spec_lookup(spec_pkg_cfg_lookup(c.packages@, pkg)->Some_0.cmds@, k)
            is Some,
        spec_pkg_cfg_lookup(c.packages@, sibling) is None,
    ensures
        super::cmds::spec_lookup(spec_merged_cmds(c, pkg), k) == super::cmds::spec_lookup(
            spec_pkg_cfg_lookup(c.packages@, pkg)->Some_0.cmds@,
            k,
        ),
        super::cmds::spec_lookup(spec_merged_cmds(c, sibling), k) == (
        if super::cmds::spec_lookup(c.cmds@, k) is Some {
            super::cmds::spec_lookup(c.cmds@, k)
        } else {
            super::cmds::spec_lookup(
                super::cmds::spec_baseline(
                    match c.meta {
                        Some(ref m) => m.run_all_checkers,
                        None => true,
                    },
                ),
                k,
            )
        }),
{
    let run = match c.meta {
        Some(ref m) => m.run_all_checkers,
        None => true,
    };
    let baseline = super::cmds::spec_baseline(run);
    lemma_baseline_unique(run);
    let base = super::cmds::spec_merge(baseline, c.cmds@);
    super::cmds::lemma_merge_lookup(baseline, c.cmds@);
    let pc = spec_pkg_cfg_lookup(c.packages@, pkg)->Some_0;
    super::cmds::lemma_merge_lookup(base, pc.cmds@);
    assert(spec_merged_cmds(c, pkg) == super::cmds::spec_merge(base, pc.cmds@));
    assert(spec_merged_cmds(c, sibling) == base);
}

} // verus!
