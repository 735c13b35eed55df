//! Legacy repo configuration: per-checker actions parsed from scalar text,
//! validation of custom commands against their checker, and expansion into
//! per-package command lines.

use vstd::prelude::*;
use crate::strutil;
use crate::strutil::{spec_contains, spec_split, spec_trim, first_idx};

verus! {

/// A checker known to this configuration format. `All` is a pseudo-checker
/// that switches every other tool on or off at once.
#[derive(Debug, Clone, Copy, PartialEq, Eq, Structural)]
pub enum CheckerTool {
    All,
    Fmt,
    Clippy,
    Miri,
    SemverChecks,
    Lockbud,
}

/// The canonical name of each tool.
pub open spec fn spec_name(t: CheckerTool) -> Seq<char> {
    match t {
        CheckerTool::All => "all"@,
        CheckerTool::Fmt => "fmt"@,
        CheckerTool::Clippy => "clippy"@,
        CheckerTool::Miri => "miri"@,
        CheckerTool::SemverChecks => "semver-checks"@,
        CheckerTool::Lockbud => "lockbud"@,
    }
}

impl CheckerTool {
    /// The checker name as written in configuration keys and commands.
    pub fn name(self) -> (r: &'static str)
        ensures
            r@ == spec_name(self),
    {
        match self {
            CheckerTool::All => "all",
            CheckerTool::Fmt => "fmt",
            CheckerTool::Clippy => "clippy",
            CheckerTool::Miri => "miri",
            CheckerTool::SemverChecks => "semver-checks",
            CheckerTool::Lockbud => "lockbud",
        }
    }
}

/// What a configuration asks of one checker.
///
/// * `Perform(false)`: do not run the checker.
/// * `Perform(true)`: run it the built-in way.
/// * `Steps(lines)`: run these literal command lines, in order.
#[derive(Debug)]
pub enum Action {
    Perform(bool),
    Steps(Vec<String>),
}

/// The mathematical value of an `Action`.
pub ghost enum ActionSpec {
    Perform(bool),
    Steps(Seq<Seq<char>>),
}

impl View for Action {
    type V = ActionSpec;

    open spec fn view(&self) -> ActionSpec {
        match self {
            Action::Perform(b) => ActionSpec::Perform(*b),
            Action::Steps(v) => ActionSpec::Steps(v.deep_view()),
        }
    }
}

/// An optional action: `None` when the configuration does not mention the
/// checker.
pub type CheckerAction = Option<Action>;

/// An error found while loading or validating a configuration.
#[derive(Debug)]
pub enum Error {
    /// A custom command was given under the `all` pseudo-checker, which is
    /// not supported: `all` only switches tools on or off.
    StepsOnAll,
    /// A custom command does not mention the checker it was given for.
    CmdMismatch { cmd: String, name: String },
    /// A package named in the configuration is not among the discovered
    /// packages of the repo; the discovered names are carried for the
    /// report.
    PkgNotFound { pkg: String, available: Vec<String> },
}

/// The mathematical value of an `Error`.
pub ghost enum ErrorSpec {
    StepsOnAll,
    CmdMismatch { cmd: Seq<char>, name: Seq<char> },
    PkgNotFound { pkg: Seq<char>, available: Seq<Seq<char>> },
}

impl View for Error {
    type V = ErrorSpec;

    open spec fn view(&self) -> ErrorSpec {
        match self {
            Error::StepsOnAll => ErrorSpec::StepsOnAll,
            Error::CmdMismatch { cmd, name } => ErrorSpec::CmdMismatch {
                cmd: cmd@,
                name: name@,
            },
            Error::PkgNotFound { pkg, available } => ErrorSpec::PkgNotFound {
                pkg: pkg@,
                available: available.deep_view(),
            },
        }
    }
}

impl Error {
    /// Render the error for display.
    pub fn message(&self) -> (r: String)
        ensures
            match self@ {
                ErrorSpec::StepsOnAll => r@ == "暂不支持在 all 上指定命令"@,
                ErrorSpec::CmdMismatch { cmd, name } => r@ == "命令 `"@ + cmd + "` 与检查工具 `"@
                    + name + "` 不匹配"@,
                ErrorSpec::PkgNotFound { pkg, available } => r@ == "yaml 配置中的 package name `"@
                    + pkg + "` 不存在；该仓库有如下 package names: "@ + spec_join_comma(
                    available,
                ),
            },
    {
        match self {
            Error::StepsOnAll => {
                let mut s = String::new();
                s.append("暂不支持在 all 上指定命令");
                s
            },
            Error::CmdMismatch { cmd, name } => {
                let mut s = String::new();
                s.append("命令 `");
                s.append(cmd.as_str());
                s.append("` 与检查工具 `");
                s.append(name.as_str());
                s.append("` 不匹配");
                s
            },
            Error::PkgNotFound { pkg, available } => {
                let joined = join_comma(available);
                let mut s = String::new();
                s.append("yaml 配置中的 package name `");
                s.append(pkg.as_str());
                s.append("` 不存在；该仓库有如下 package names: ");
                s.append(joined.as_str());
                s
            },
        }
    }
}

/// `parts` joined with a comma and a space.
pub open spec fn spec_join_comma(parts: Seq<Seq<char>>) -> Seq<char>
    decreases parts.len(),
{
    if parts.len() == 0 {
        Seq::empty()
    } else if parts.len() == 1 {
        parts[0]
    } else {
        spec_join_comma(parts.drop_last()) + ", "@ + parts.last()
    }
}

/// Join strings with commas.
fn join_comma(parts: &Vec<String>) -> (r: String)
    ensures
        r@ == spec_join_comma(parts.deep_view()),
{
    let mut r = String::new();
    let n = parts.len();
    let mut i: usize = 0;
    proof {
        assert(parts.deep_view().subrange(0, 0) =~= Seq::<Seq<char>>::empty());
        assert(r@ =~= spec_join_comma(parts.deep_view().subrange(0, 0)));
    }
    while i < n
        invariant
            0 <= i <= n,
            n == parts@.len(),
            r@ == spec_join_comma(parts.deep_view().subrange(0, i as int)),
        decreases n - i,
    {
        if i > 0 {
            r.append(", ");
        }
        r.append(parts[i].as_str());
        proof {
            let pre = parts.deep_view().subrange(0, i as int);
            let cur = parts.deep_view().subrange(0, i + 1);
            assert(cur.drop_last() =~= pre);
            assert(cur.last() == parts.deep_view()[i as int]);
            assert(parts.deep_view()[i as int] == parts@[i as int]@);
            assert(r@ =~= spec_join_comma(cur));
        }
        i += 1;
    }
    proof {
        assert(parts.deep_view().subrange(0, n as int) =~= parts.deep_view());
    }
    r
}

/// A line of a custom command with any `#` comment removed, then trimmed.
pub open spec fn spec_strip_comment(line: Seq<char>) -> Seq<char> {
    let i = first_idx(line, '#');
    if i < line.len() {
        spec_trim(line.subrange(0, i))
    } else {
        spec_trim(line)
    }
}

/// The command steps read from multi-line text: each line is stripped of its
/// comment and trimmed, and empty lines are dropped.
pub open spec fn spec_steps_of(ls: Seq<Seq<char>>) -> Seq<Seq<char>>
    decreases ls.len(),
{
    if ls.len() == 0 {
        Seq::empty()
    } else {
        let h = spec_strip_comment(ls[0]);
        let rest = spec_steps_of(ls.drop_first());
        if h.len() == 0 {
            rest
        } else {
            seq![h] + rest
        }
    }
}

/// The action denoted by one scalar configuration value: the literal tokens
/// `true` / `false`, or free text read as command lines.
pub open spec fn spec_action_of(s: Seq<char>) -> ActionSpec {
    let t = spec_trim(s);
    if t == "true"@ {
        ActionSpec::Perform(true)
    } else if t == "false"@ {
        ActionSpec::Perform(false)
    } else {
        ActionSpec::Steps(spec_steps_of(spec_split(t, '\n')))
    }
}

proof fn lemma_steps_of_concat(a: Seq<Seq<char>>, b: Seq<Seq<char>>)
    ensures
        spec_steps_of(a + b) == spec_steps_of(a) + spec_steps_of(b),
    decreases a.len(),
{
    if a.len() == 0 {
        assert(a + b =~= b);
        assert(Seq::<Seq<char>>::empty() + spec_steps_of(b) =~= spec_steps_of(b));
    } else {
        assert((a + b).drop_first() =~= a.drop_first() + b);
        lemma_steps_of_concat(a.drop_first(), b);
        let h = spec_strip_comment(a[0]);
        if h.len() == 0 {
        } else {
            assert(seq![h] + (spec_steps_of(a.drop_first()) + spec_steps_of(b)) =~= (seq![h]
                + spec_steps_of(a.drop_first())) + spec_steps_of(b));
        }
    }
}

/// Strip the comment from one line and trim it.
fn strip_comment(line: &[char]) -> (r: Vec<char>)
    ensures
        r@ == spec_strip_comment(line@),
{
    match strutil::find_char(line, '#') {
        Some(i) => {
            proof {
                strutil::lemma_first_idx_is(line@, '#', i as int);
            }
            let prefix = strutil::slice_range(line, 0, i);
            trim_vec(&prefix)
        },
        None => {
            proof {
                strutil::lemma_first_idx_is(line@, '#', line@.len() as int);
            }
            trim_vec_slice(line)
        },
    }
}

fn trim_vec(v: &Vec<char>) -> (r: Vec<char>)
    ensures
        r@ == spec_trim(v@),
{
    strutil::trim_chars(v.as_slice())
}

fn trim_vec_slice(v: &[char]) -> (r: Vec<char>)
    ensures
        r@ == spec_trim(v@),
{
    strutil::trim_chars(v)
}

impl Action {
    /// Read an action from one scalar configuration value.
    pub fn parse_scalar(value: &str) -> (r: Action)
        ensures
            r@ == spec_action_of(value@),
    {
        let chars = strutil::chars_vec(value);
        let t = strutil::trim_chars(chars.as_slice());
        let true_chars = strutil::chars_vec("true");
        let false_chars = strutil::chars_vec("false");
        if strutil::eq_chars(t.as_slice(), true_chars.as_slice()) {
            return Action::Perform(true);
        }
        if strutil::eq_chars(t.as_slice(), false_chars.as_slice()) {
            return Action::Perform(false);
        }
        let lines = strutil::split_char(t.as_slice(), '\n');
        let ghost lsview = lines@.map_values(|e: Vec<char>| e@);
        let mut steps: Vec<String> = Vec::new();
        let n = lines.len();
        let mut i: usize = 0;
        proof {
            assert(lsview.subrange(0, 0) =~= Seq::<Seq<char>>::empty());
            assert(steps.deep_view() =~= Seq::<Seq<char>>::empty());
        }
        while i < n
            invariant
                0 <= i <= n,
                n == lines@.len(),
                lsview == lines@.map_values(|e: Vec<char>| e@),
                steps.deep_view() == spec_steps_of(lsview.subrange(0, i as int)),
            decreases n - i,
        {
            let stripped = strip_comment(lines[i].as_slice());
            if stripped.len() > 0 {
                let s = strutil::string_from_chars(stripped.as_slice());
                let ghost pre = steps.deep_view();
                steps.push(s);
                proof {
                    assert(steps.deep_view() =~= pre.push(stripped@));
                }
            }
            proof {
                let prefix = lsview.subrange(0, i as int);
                let one = seq![lsview[i as int]];
                lemma_steps_of_concat(prefix, one);
                assert(prefix + one =~= lsview.subrange(0, i + 1));
                assert(one.drop_first() =~= Seq::<Seq<char>>::empty());
                assert(spec_steps_of(one.drop_first()) =~= Seq::<Seq<char>>::empty());
                let h = spec_strip_comment(one[0]);
                if h.len() == 0 {
                    assert(spec_steps_of(one) =~= Seq::<Seq<char>>::empty());
                } else {
                    assert(spec_steps_of(one) =~= seq![h]);
                    assert(spec_steps_of(prefix).push(h) =~= spec_steps_of(prefix) + seq![h]);
                }
            }
            i += 1;
        }
        proof {
            assert(lsview.subrange(0, n as int) =~= lsview);
        }
        Action::Steps(steps)
    }

    /// First custom step that does not mention `name`, if any.
    pub open spec fn spec_first_bad(steps: Seq<Seq<char>>, name: Seq<char>) -> Option<Seq<char>>
        decreases steps.len(),
    {
        if steps.len() == 0 {
            None
        } else if !spec_contains(steps[0], name) {
            Some(steps[0])
        } else {
            Self::spec_first_bad(steps.drop_first(), name)
        }
    }

    /// The validation outcome for an action given under checker `tool`:
    /// `None` when it passes.
    ///
    /// A `Perform` always passes. Custom steps are rejected outright under
    /// the `all` pseudo-checker; otherwise each step must contain the
    /// checker's canonical name as a substring, and the first step that does
    /// not is reported together with that name.
    pub open spec fn spec_check(act: ActionSpec, tool: CheckerTool) -> Option<ErrorSpec> {
        match act {
            ActionSpec::Perform(_) => None,
            ActionSpec::Steps(steps) => {
                if tool == CheckerTool::All {
                    Some(ErrorSpec::StepsOnAll)
                } else {
                    match Self::spec_first_bad(steps, spec_name(tool)) {
                        Some(cmd) => Some(
                            ErrorSpec::CmdMismatch { cmd, name: spec_name(tool) },
                        ),
                        None => None,
                    }
                }
            },
        }
    }

    /// Check that every custom command mentions the checker it is given for.
    /// Passes exactly when `spec_check` finds nothing to reject.
    pub fn check(&self, tool: CheckerTool) -> (r: Result<(), Error>)
        ensures
            match r {
                Ok(()) => Self::spec_check(self@, tool) is None,
                Err(e) => Self::spec_check(self@, tool) == Some(e@),
            },
    {
        match self {
            Action::Perform(_) => Ok(()),
            Action::Steps(steps) => {
                if let CheckerTool::All = tool {
                    return Err(Error::StepsOnAll);
                }
                let name = tool.name();
                let name_chars = strutil::chars_vec(name);
                let n = steps.len();
                let mut i: usize = 0;
                while i < n
                    invariant
                        0 <= i <= n,
                        n == steps@.len(),
                        name_chars@ == spec_name(tool),
                        name@ == spec_name(tool),
                        tool != CheckerTool::All,
                        self@ == ActionSpec::Steps(steps.deep_view()),
                        forall|j: int|
                            0 <= j < i ==> spec_contains(#[trigger] steps@[j]@, spec_name(tool)),
                    decreases n - i,
                {
                    let step_chars = strutil::chars_vec(steps[i].as_str());
                    if !strutil::contains_sub(step_chars.as_slice(), name_chars.as_slice()) {
                        let cmd = steps[i].clone();
                        proof {
                            assert(steps.deep_view()[i as int] == steps@[i as int]@);
                            assert(forall|j: int|
                                0 <= j < steps.deep_view().len() ==> #[trigger] steps.deep_view()[j]
                                    == steps@[j]@);
                            lemma_first_bad_at(steps.deep_view(), spec_name(tool), i as int);
                        }
                        return Err(Error::CmdMismatch { cmd, name: name.to_owned() });
                    }
                    i += 1;
                }
                proof {
                    assert(forall|j: int|
                        0 <= j < steps.deep_view().len() ==> #[trigger] steps.deep_view()[j]
                            == steps@[j]@);
                    lemma_first_bad_none(steps.deep_view(), spec_name(tool));
                }
                Ok(())
            },
        }
    }
}

proof fn lemma_first_bad_at(steps: Seq<Seq<char>>, name: Seq<char>, i: int)
    requires
        0 <= i < steps.len(),
        !spec_contains(steps[i], name),
        forall|j: int| 0 <= j < i ==> spec_contains(#[trigger] steps[j], name),
    ensures
        Action::spec_first_bad(steps, name) == Some(steps[i]),
    decreases i,
{
    if i > 0 {
        let t = steps.drop_first();
        lemma_first_bad_at(t, name, i - 1);
    }
}

proof fn lemma_first_bad_none(steps: Seq<Seq<char>>, name: Seq<char>)
    requires
        forall|j: int| 0 <= j < steps.len() ==> spec_contains(#[trigger] steps[j], name),
    ensures
        Action::spec_first_bad(steps, name) is None,
    decreases steps.len(),
{
    if steps.len() > 0 {
        lemma_first_bad_none(steps.drop_first(), name);
    }
}

impl Action {
    /// A copy with the same value.
    pub fn duplicate(&self) -> (r: Action)
        ensures
            r@ == self@,
    {
        match self {
            Action::Perform(b) => Action::Perform(*b),
            Action::Steps(v) => {
                let mut w: Vec<String> = Vec::new();
                let n = v.len();
                let mut i: usize = 0;
                while i < n
                    invariant
                        0 <= i <= n,
                        n == v@.len(),
                        w@ =~= v@.subrange(0, i as int),
                    decreases n - i,
                {
                    w.push(v[i].clone());
                    i += 1;
                }
                proof {
                    assert(w@ =~= v@);
                    assert(w.deep_view() =~= v.deep_view());
                }
                Action::Steps(w)
            },
        }
    }
}

/// A discovered package: its name and the path of its manifest.
#[derive(Debug)]
pub struct Package {
    pub name: String,
    pub cargo_toml: String,
}

/// The mathematical value of a `Package`: its name and manifest path.
pub open spec fn pkg_pv(p: Package) -> (Seq<char>, Seq<char>) {
    (p.name@, p.cargo_toml@)
}

impl Package {
    /// A copy with the same value.
    pub fn duplicate(&self) -> (r: Package)
        ensures
            pkg_pv(r) == pkg_pv(*self),
    {
        Package { name: self.name.clone(), cargo_toml: self.cargo_toml.clone() }
    }
}

/// Configuration of one repo: an optional action for each checker, and
/// optional per-package overrides.
#[derive(Debug)]
pub struct RepoConfig {
    pub all: CheckerAction,
    pub fmt: CheckerAction,
    pub clippy: CheckerAction,
    pub miri: CheckerAction,
    pub semver_checks: CheckerAction,
    pub lockbud: CheckerAction,
    pub packages: Option<Vec<(String, RepoConfig)>>,
}

/// A repo identified by `user/repo`, with its checker configuration.
#[derive(Debug)]
pub struct Config {
    pub repo: String,
    pub config: RepoConfig,
}

/// The entry contributed by one optional action.
pub open spec fn spec_opt_entry(t: CheckerTool, a: Option<Action>) -> Seq<
    (CheckerTool, ActionSpec),
> {
    match a {
        Some(x) => seq![(t, x@)],
        None => Seq::empty(),
    }
}

/// Every (checker, action) pair of a configuration, fields first, then the
/// pairs of the nested package configurations in order.
pub open spec fn spec_checker_action(c: RepoConfig) -> Seq<(CheckerTool, ActionSpec)>
    decreases c,
{
    spec_opt_entry(CheckerTool::All, c.all) + spec_opt_entry(CheckerTool::Fmt, c.fmt)
        + spec_opt_entry(CheckerTool::Clippy, c.clippy) + spec_opt_entry(CheckerTool::Miri, c.miri)
        + spec_opt_entry(CheckerTool::SemverChecks, c.semver_checks) + spec_opt_entry(
        CheckerTool::Lockbud,
        c.lockbud,
    ) + match c.packages {
        Some(m) => spec_nested_actions(m@),
        None => Seq::empty(),
    }
}

pub open spec fn spec_nested_actions(m: Seq<(String, RepoConfig)>) -> Seq<(CheckerTool, ActionSpec)>
    decreases m,
{
    if m.len() == 0 {
        Seq::empty()
    } else {
        spec_checker_action(m[0].1) + spec_nested_actions(m.drop_first())
    }
}

/// The first validation error among the given (checker, action) pairs.
pub open spec fn spec_first_check_err(list: Seq<(CheckerTool, ActionSpec)>) -> Option<ErrorSpec>
    decreases list.len(),
{
    if list.len() == 0 {
        None
    } else {
        match Action::spec_check(list[0].1, list[0].0) {
            Some(e) => Some(e),
            None => spec_first_check_err(list.drop_first()),
        }
    }
}


/// One resolved entry: package name, manifest path, command line.
pub type Entry = (Seq<char>, Seq<char>, Seq<char>);

/// The views of a list of resolved (package, command) pairs.
pub open spec fn pairs_view(s: Seq<(Package, String)>) -> Seq<Entry> {
    s.map_values(|e: (Package, String)| (e.0.name@, e.0.cargo_toml@, e.1@))
}

/// The views of a list of packages.
pub open spec fn pkgs_view(s: Seq<Package>) -> Seq<(Seq<char>, Seq<char>)> {
    s.map_values(|p: Package| pkg_pv(p))
}

/// The built-in heuristic command for `fmt` or `clippy` on one manifest.
pub open spec fn spec_builtin_cmd(is_fmt: bool, toml: Seq<char>) -> Seq<char> {
    if is_fmt {
        "cargo fmt --manifest-path "@ + toml
    } else {
        "cargo clippy --manifest-path "@ + toml
    }
}

/// One built-in entry per package.
pub open spec fn spec_perform_entries(pkgs: Seq<(Seq<char>, Seq<char>)>, is_fmt: bool) -> Seq<
    Entry,
> {
    pkgs.map_values(|q: (Seq<char>, Seq<char>)| (q.0, q.1, spec_builtin_cmd(is_fmt, q.1)))
}

/// One entry per (package, custom step), package-major.
pub open spec fn spec_steps_entries(
    pkgs: Seq<(Seq<char>, Seq<char>)>,
    steps: Seq<Seq<char>>,
) -> Seq<Entry>
    decreases pkgs.len(),
{
    if pkgs.len() == 0 {
        Seq::empty()
    } else {
        steps.map_values(|s: Seq<char>| (pkgs[0].0, pkgs[0].1, s)) + spec_steps_entries(
            pkgs.drop_first(),
            steps,
        )
    }
}

/// The entries contributed by one checker's action over the given packages.
///
/// An explicit entry always wins: `Perform(true)` yields one built-in entry
/// per package, `Perform(false)` yields nothing even under `all: true`, and
/// custom steps yield one entry per package and step. A checker the
/// configuration does not mention follows the `all` switch.
pub open spec fn spec_tool_entries(
    a: Option<Action>,
    all: bool,
    pkgs: Seq<(Seq<char>, Seq<char>)>,
    is_fmt: bool,
) -> Seq<Entry> {
    match a {
        Some(act) => match act@ {
            ActionSpec::Perform(p) => if p {
                spec_perform_entries(pkgs, is_fmt)
            } else {
                Seq::empty()
            },
            ActionSpec::Steps(st) => spec_steps_entries(pkgs, st),
        },
        None => if all {
            spec_perform_entries(pkgs, is_fmt)
        } else {
            Seq::empty()
        },
    }
}

/// The first package with the given name, if any.
pub open spec fn spec_find_pkg(pkgs: Seq<(Seq<char>, Seq<char>)>, name: Seq<char>) -> Option<
    (Seq<char>, Seq<char>),
>
    decreases pkgs.len(),
{
    if pkgs.len() == 0 {
        None
    } else if pkgs[0].0 == name {
        Some(pkgs[0])
    } else {
        spec_find_pkg(pkgs.drop_first(), name)
    }
}

/// The resolved (package, command) entries for a configuration.
///
/// Without a `packages` table, the `fmt` entries come first and the `clippy`
/// entries after them, each expanded over all given packages (only these two
/// checkers are expanded here); `all: true` switches on the checkers the
/// configuration leaves unmentioned, and an explicit `false` always wins
/// over it. With a `packages` table, each named package
/// is resolved against its own sub-configuration in table order; a name not
/// among the given packages fails the whole resolution.
pub open spec fn spec_pkg_checker_action(
    c: RepoConfig,
    pkgs: Seq<(Seq<char>, Seq<char>)>,
) -> Result<Seq<Entry>, ErrorSpec>
    decreases c,
{
    let all = match c.all {
        Some(a) => a@ == ActionSpec::Perform(true),
        None => false,
    };
    match c.packages {
        Some(m) => spec_walk_packages(m@, pkgs),
        None => Ok(
            spec_tool_entries(c.fmt, all, pkgs, true) + spec_tool_entries(
                c.clippy,
                all,
                pkgs,
                false,
            ),
        ),
    }
}

/// Resolve each named package against its sub-configuration, in order.
pub open spec fn spec_walk_packages(
    m: Seq<(String, RepoConfig)>,
    pkgs: Seq<(Seq<char>, Seq<char>)>,
) -> Result<Seq<Entry>, ErrorSpec>
    decreases m,
{
    if m.len() == 0 {
        Ok(Seq::empty())
    } else {
        match spec_find_pkg(pkgs, m[0].0@) {
            Some(q) => match spec_pkg_checker_action(m[0].1, seq![q]) {
                Ok(head) => match spec_walk_packages(m.drop_first(), pkgs) {
                    Ok(tail) => Ok(head + tail),
                    Err(e) => Err(e),
                },
                Err(e) => Err(e),
            },
            None => Err(
                ErrorSpec::PkgNotFound {
                    pkg: m[0].0@,
                    available: pkgs.map_values(|q: (Seq<char>, Seq<char>)| q.0),
                },
            ),
        }
    }
}

proof fn lemma_steps_entries_concat(
    a: Seq<(Seq<char>, Seq<char>)>,
    b: Seq<(Seq<char>, Seq<char>)>,
    steps: Seq<Seq<char>>,
)
    ensures
        spec_steps_entries(a + b, steps) == spec_steps_entries(a, steps) + spec_steps_entries(
            b,
            steps,
        ),
    decreases a.len(),
{
    if a.len() == 0 {
        assert(a + b =~= b);
        assert(Seq::<Entry>::empty() + spec_steps_entries(b, steps) =~= spec_steps_entries(
            b,
            steps,
        ));
    } else {
        assert((a + b).drop_first() =~= a.drop_first() + b);
        lemma_steps_entries_concat(a.drop_first(), b, steps);
        assert((a + b)[0] == a[0]);
        let hd = steps.map_values(|s: Seq<char>| (a[0].0, a[0].1, s));
        assert(hd + (spec_steps_entries(a.drop_first(), steps) + spec_steps_entries(b, steps))
            =~= (hd + spec_steps_entries(a.drop_first(), steps)) + spec_steps_entries(b, steps));
    }
}

/// Build the built-in command line for `fmt` or `clippy`.
fn builtin_cmd(is_fmt: bool, cargo_toml: &str) -> (r: String)
    ensures
        r@ == spec_builtin_cmd(is_fmt, cargo_toml@),
{
    let mut s = String::new();
    if is_fmt {
        s.append("cargo fmt --manifest-path ");
    } else {
        s.append("cargo clippy --manifest-path ");
    }
    s.append(cargo_toml);
    proof {
        if is_fmt {
            assert(Seq::<char>::empty() + "cargo fmt --manifest-path "@ + cargo_toml@
                =~= "cargo fmt --manifest-path "@ + cargo_toml@);
        } else {
            assert(Seq::<char>::empty() + "cargo clippy --manifest-path "@ + cargo_toml@
                =~= "cargo clippy --manifest-path "@ + cargo_toml@);
        }
    }
    s
}

/// Append one built-in entry per package to `v`.
fn push_perform_entries(v: &mut Vec<(Package, String)>, pkgs: &[Package], is_fmt: bool)
    ensures
        pairs_view(final(v)@) == pairs_view(old(v)@) + spec_perform_entries(
            pkgs_view(pkgs@),
            is_fmt,
        ),
{
    let ghost pvs = pkgs_view(pkgs@);
    let n = pkgs.len();
    let mut i: usize = 0;
    proof {
        assert(pvs.subrange(0, 0) =~= Seq::<(Seq<char>, Seq<char>)>::empty());
        assert(pairs_view(v@) =~= pairs_view(old(v)@) + spec_perform_entries(
            pvs.subrange(0, 0),
            is_fmt,
        ));
    }
    while i < n
        invariant
            0 <= i <= n,
            n == pkgs@.len(),
            pvs == pkgs_view(pkgs@),
            pairs_view(v@) == pairs_view(old(v)@) + spec_perform_entries(
                pvs.subrange(0, i as int),
                is_fmt,
            ),
        decreases n - i,
    {
        let q = pkgs[i].duplicate();
        let cmd = builtin_cmd(is_fmt, q.cargo_toml.as_str());
        let ghost qv = pkg_pv(q);
        let ghost cv = cmd@;
        let pair = (q, cmd);
        let ghost pr = pair;
        v.push(pair);
        proof {
            assert(pvs[i as int] == pkg_pv(pkgs@[i as int]));
            assert((pr.0.name@, pr.0.cargo_toml@, pr.1@) == (
                qv.0,
                qv.1,
                spec_builtin_cmd(is_fmt, qv.1),
            ));
            assert(pvs.subrange(0, i + 1) =~= pvs.subrange(0, i as int).push(pvs[i as int]));
            assert(pairs_view(v@) =~= (pairs_view(old(v)@) + spec_perform_entries(
                pvs.subrange(0, i as int),
                is_fmt,
            )).push((qv.0, qv.1, spec_builtin_cmd(is_fmt, qv.1))));
            assert(pairs_view(v@) =~= pairs_view(old(v)@) + spec_perform_entries(
                pvs.subrange(0, i + 1),
                is_fmt,
            ));
        }
        i += 1;
    }
    proof {
        assert(pvs.subrange(0, n as int) =~= pvs);
    }
}

/// Append the entries of one checker's action over `pkgs` to `v`.
fn push_tool_entries(
    v: &mut Vec<(Package, String)>,
    a: &Option<Action>,
    all: bool,
    pkgs: &[Package],
    is_fmt: bool,
)
    ensures
        pairs_view(final(v)@) == pairs_view(old(v)@) + spec_tool_entries(
            *a,
            all,
            pkgs_view(pkgs@),
            is_fmt,
        ),
{
    let ghost pvs = pkgs_view(pkgs@);
    match a {
        None => {
            if all {
                push_perform_entries(v, pkgs, is_fmt);
            } else {
                proof {
                    assert(pairs_view(v@) =~= pairs_view(old(v)@) + Seq::<Entry>::empty());
                }
            }
        },
        Some(Action::Perform(p)) => {
            if *p {
                push_perform_entries(v, pkgs, is_fmt);
            } else {
                proof {
                    assert(pairs_view(v@) =~= pairs_view(old(v)@) + Seq::<Entry>::empty());
                }
            }
        },
        Some(Action::Steps(steps)) => {
            let n = pkgs.len();
            let mut i: usize = 0;
            proof {
                assert(pvs.subrange(0, 0) =~= Seq::<(Seq<char>, Seq<char>)>::empty());
                assert(pairs_view(v@) =~= pairs_view(old(v)@) + spec_steps_entries(
                    pvs.subrange(0, 0),
                    steps.deep_view(),
                ));
            }
            while i < n
                invariant
                    0 <= i <= n,
                    n == pkgs@.len(),
                    pvs == pkgs_view(pkgs@),
                    pairs_view(v@) == pairs_view(old(v)@) + spec_steps_entries(
                        pvs.subrange(0, i as int),
                        steps.deep_view(),
                    ),
                decreases n - i,
            {
                let ghost st = steps.deep_view();
                let m = steps.len();
                let mut j: usize = 0;
                let ghost mid = pairs_view(v@);
                while j < m
                    invariant
                        0 <= j <= m,
                        0 <= i < n,
                        n == pkgs@.len(),
                        m == steps@.len(),
                        st == steps.deep_view(),
                        pvs == pkgs_view(pkgs@),
                        pairs_view(v@) == mid + st.subrange(0, j as int).map_values(
                            |s: Seq<char>| (pvs[i as int].0, pvs[i as int].1, s),
                        ),
                    decreases m - j,
                {
                    let q = pkgs[i].duplicate();
                    let cmd = steps[j].clone();
                    let ghost qv = pkg_pv(q);
                    let pair = (q, cmd);
                    let ghost pr = pair;
                    v.push(pair);
                    proof {
                        assert(pvs[i as int] == pkg_pv(pkgs@[i as int]));
                        assert(st[j as int] == steps@[j as int]@);
                        assert((pr.0.name@, pr.0.cargo_toml@, pr.1@) == (
                            pvs[i as int].0,
                            pvs[i as int].1,
                            st[j as int],
                        ));
                        assert(st.subrange(0, j + 1) =~= st.subrange(0, j as int).push(
                            st[j as int],
                        ));
                        assert(st.subrange(0, j + 1).map_values(
                            |s: Seq<char>| (pvs[i as int].0, pvs[i as int].1, s),
                        ) =~= st.subrange(0, j as int).map_values(
                            |s: Seq<char>| (pvs[i as int].0, pvs[i as int].1, s),
                        ).push((pvs[i as int].0, pvs[i as int].1, st[j as int])));
                        assert(pairs_view(v@) =~= (mid + st.subrange(0, j as int).map_values(
                            |s: Seq<char>| (pvs[i as int].0, pvs[i as int].1, s),
                        )).push((pvs[i as int].0, pvs[i as int].1, st[j as int])));
                        assert(pairs_view(v@) =~= mid + st.subrange(0, j + 1).map_values(
                            |s: Seq<char>| (pvs[i as int].0, pvs[i as int].1, s),
                        ));
                    }
                    j += 1;
                }
                proof {
                    let prefix = pvs.subrange(0, i as int);
                    let one = seq![pvs[i as int]];
                    lemma_steps_entries_concat(prefix, one, st);
                    assert(prefix + one =~= pvs.subrange(0, i + 1));
                    assert(one.drop_first() =~= Seq::<(Seq<char>, Seq<char>)>::empty());
                    assert(spec_steps_entries(one.drop_first(), st) =~= Seq::<Entry>::empty());
                    assert(st.subrange(0, m as int) =~= st);
                    assert(spec_steps_entries(one, st) =~= st.map_values(
                        |s: Seq<char>| (pvs[i as int].0, pvs[i as int].1, s),
                    ));
                    assert(pairs_view(v@) =~= pairs_view(old(v)@) + spec_steps_entries(
                        pvs.subrange(0, i + 1),
                        st,
                    ));
                }
                i += 1;
            }
            proof {
                assert(pvs.subrange(0, n as int) =~= pvs);
            }
        },
    }
}


/// The names of the given packages, in order.
fn pkg_names(pkgs: &[Package]) -> (r: Vec<String>)
    ensures
        r.deep_view() == pkgs@.map_values(|p: Package| p.name@),
{
    let mut r: Vec<String> = Vec::new();
    let n = pkgs.len();
    let mut i: usize = 0;
    proof {
        assert(r.deep_view() =~= pkgs@.subrange(0, 0).map_values(|p: Package| p.name@));
    }
    while i < n
        invariant
            0 <= i <= n,
            n == pkgs@.len(),
            r.deep_view() == pkgs@.subrange(0, i as int).map_values(|p: Package| p.name@),
        decreases n - i,
    {
        let ghost pre = r.deep_view();
        r.push(pkgs[i].name.clone());
        proof {
            assert(r.deep_view() =~= pre.push(pkgs@[i as int].name@));
            assert(pkgs@.subrange(0, i + 1) =~= pkgs@.subrange(0, i as int).push(
                pkgs@[i as int],
            ));
            pkgs@.subrange(0, i as int).lemma_push_map_commute(
                |p: Package| p.name@,
                pkgs@[i as int],
            );
        }
        i += 1;
    }
    proof {
        assert(pkgs@.subrange(0, n as int) =~= pkgs@);
    }
    r
}

/// Find the first package with the given name.
fn find_pkg(pkgs: &[Package], name: &str) -> (r: Option<usize>)
    ensures
        match r {
            Some(i) => 0 <= i < pkgs@.len() && spec_find_pkg(pkgs_view(pkgs@), name@) == Some(
                pkgs_view(pkgs@)[i as int],
            ),
            None => spec_find_pkg(pkgs_view(pkgs@), name@) is None,
        },
{
    let n = pkgs.len();
    let mut i: usize = 0;
    while i < n
        invariant
            0 <= i <= n,
            n == pkgs@.len(),
            forall|j: int| 0 <= j < i ==> (#[trigger] pkgs_view(pkgs@)[j]).0 != name@,
        decreases n - i,
    {
        if strutil::str_eq(pkgs[i].name.as_str(), name) {
            proof {
                lemma_find_pkg_at(pkgs_view(pkgs@), name@, i as int);
            }
            return Some(i);
        }
        proof {
            assert(pkgs_view(pkgs@)[i as int] == pkg_pv(pkgs@[i as int]));
        }
        i += 1;
    }
    proof {
        lemma_find_pkg_none(pkgs_view(pkgs@), name@);
    }
    None
}

proof fn lemma_find_pkg_at(pkgs: Seq<(Seq<char>, Seq<char>)>, name: Seq<char>, i: int)
    requires
        0 <= i < pkgs.len(),
        pkgs[i].0 == name,
        forall|j: int| 0 <= j < i ==> (#[trigger] pkgs[j]).0 != name,
    ensures
        spec_find_pkg(pkgs, name) == Some(pkgs[i]),
    decreases i,
{
    if i > 0 {
        lemma_find_pkg_at(pkgs.drop_first(), name, i - 1);
    }
}

proof fn lemma_find_pkg_none(pkgs: Seq<(Seq<char>, Seq<char>)>, name: Seq<char>)
    requires
        forall|j: int| 0 <= j < pkgs.len() ==> (#[trigger] pkgs[j]).0 != name,
    ensures
        spec_find_pkg(pkgs, name) is None,
    decreases pkgs.len(),
{
    if pkgs.len() > 0 {
        lemma_find_pkg_none(pkgs.drop_first(), name);
    }
}

impl RepoConfig {
    /// Resolve this configuration over the given discovered packages into
    /// (package, command line) pairs, as `spec_pkg_checker_action` states.
    pub fn pkg_checker_action(&self, pkgs: &[Package]) -> (r: Result<
        Vec<(Package, String)>,
        Error,
    >)
        ensures
            match r {
                Ok(v) => spec_pkg_checker_action(*self, pkgs_view(pkgs@)) == Ok::<_, ErrorSpec>(
                    pairs_view(v@),
                ),
                Err(e) => spec_pkg_checker_action(*self, pkgs_view(pkgs@)) == Err::<Seq<Entry>, _>(
                    e@,
                ),
            },
        decreases *self,
    {
        let ghost pvs = pkgs_view(pkgs@);
        let all = match &self.all {
            Some(Action::Perform(true)) => true,
            _ => false,
        };
        match &self.packages {
            Some(m) => {
                let mut acc: Vec<(Package, String)> = Vec::new();
                let n = m.len();
                let mut i: usize = 0;
                proof {
                    assert(m@.subrange(0, n as int) =~= m@);
                    assert(pairs_view(acc@) =~= Seq::<Entry>::empty());
                    assert(spec_pkg_checker_action(*self, pvs) == spec_walk_packages(m@, pvs));
                }
                while i < n
                    invariant
                        0 <= i <= n,
                        n == m@.len(),
                        pvs == pkgs_view(pkgs@),
                        self.packages == Some(*m),
                        spec_pkg_checker_action(*self, pvs) == match spec_walk_packages(
                            m@.subrange(i as int, n as int),
                            pvs,
                        ) {
                            Ok(t) => Ok::<Seq<Entry>, ErrorSpec>(pairs_view(acc@) + t),
                            Err(e) => Err::<Seq<Entry>, ErrorSpec>(e),
                        },
                    decreases n - i,
                {
                    let ghost rest = m@.subrange(i as int, n as int);
                    proof {
                        assert(rest[0] == m@[i as int]);
                        assert(rest.drop_first() =~= m@.subrange(i + 1, n as int));
                    }
                    let name = &m[i].0;
                    let conf = &m[i].1;
                    match find_pkg(pkgs, name.as_str()) {
                        Some(idx) => {
                            let q = pkgs[idx].duplicate();
                            let ghost qv = pkg_pv(q);
                            let single = vec![q];
                            proof {
                                assert(pkgs_view(single@) =~= seq![qv]);
                                assert(qv == pkgs_view(pkgs@)[idx as int]);
                            }
                            match conf.pkg_checker_action(single.as_slice()) {
                                Ok(mut sub) => {
                                    let ghost accv = pairs_view(acc@);
                                    let ghost subv = pairs_view(sub@);
                                    proof {
                                        assert(pkgs_view(single@) == seq![qv]);
                                        assert(spec_pkg_checker_action(*conf, seq![qv]) == Ok::<
                                            Seq<Entry>,
                                            ErrorSpec,
                                        >(subv));
                                        assert(rest[0].0@ == name@ && rest[0].1 == *conf);
                                        assert(spec_walk_packages(rest, pvs)
                                            == match spec_walk_packages(rest.drop_first(), pvs) {
                                            Ok(t) => Ok::<Seq<Entry>, ErrorSpec>(subv + t),
                                            Err(e) => Err::<Seq<Entry>, ErrorSpec>(e),
                                        });
                                        match spec_walk_packages(m@.subrange(i + 1, n as int), pvs) {
                                            Ok(t) => {
                                                assert(accv + (subv + t) =~= (accv + subv) + t);
                                            },
                                            Err(_) => {},
                                        }
                                    }
                                    acc.append(&mut sub);
                                    proof {
                                        assert(pairs_view(acc@) =~= accv + subv);
                                    }
                                },
                                Err(e) => {
                                    proof {
                                        assert(pkgs_view(single@) == seq![qv]);
                                        assert(spec_walk_packages(rest, pvs) == Err::<
                                            Seq<Entry>,
                                            ErrorSpec,
                                        >(e@));
                                    }
                                    return Err(e);
                                },
                            }
                        },
                        None => {
                            let available = pkg_names(pkgs);
                            proof {
                                assert(available.deep_view() =~= pvs.map_values(
                                    |q: (Seq<char>, Seq<char>)| q.0,
                                ));
                            }
                            return Err(
                                Error::PkgNotFound { pkg: name.clone(), available },
                            );
                        },
                    }
                    i += 1;
                }
                proof {
                    let empty_rest = m@.subrange(n as int, n as int);
                    assert(empty_rest =~= Seq::<(String, RepoConfig)>::empty());
                    assert(spec_walk_packages(empty_rest, pvs) == Ok::<Seq<Entry>, ErrorSpec>(
                        Seq::empty(),
                    ));
                    assert(pairs_view(acc@) + Seq::<Entry>::empty() =~= pairs_view(acc@));
                }
                Ok(acc)
            },
            None => {
                let mut v: Vec<(Package, String)> = Vec::new();
                proof {
                    assert(pairs_view(v@) =~= Seq::<Entry>::empty());
                }
                push_tool_entries(&mut v, &self.fmt, all, pkgs, true);
                let ghost fmt_part = pairs_view(v@);
                push_tool_entries(&mut v, &self.clippy, all, pkgs, false);
                proof {
                    assert(Seq::<Entry>::empty() + spec_tool_entries(self.fmt, all, pvs, true)
                        =~= spec_tool_entries(self.fmt, all, pvs, true));
                    assert(pairs_view(v@) =~= spec_tool_entries(self.fmt, all, pvs, true)
                        + spec_tool_entries(self.clippy, all, pvs, false));
                }
                Ok(v)
            },
        }
    }

    /// Every (checker, action) pair of this configuration, including those of
    /// nested package configurations.
    pub fn checker_action(&self) -> (r: Vec<(CheckerTool, Action)>)
        ensures
            r@.map_values(|e: (CheckerTool, Action)| (e.0, e.1@)) == spec_checker_action(*self),
        decreases *self,
    {
        let mut v: Vec<(CheckerTool, Action)> = Vec::new();
        proof {
            assert(v@.map_values(|e: (CheckerTool, Action)| (e.0, e.1@)) =~= Seq::<
                (CheckerTool, ActionSpec),
            >::empty());
        }
        push_opt_entry(&mut v, CheckerTool::All, &self.all);
        push_opt_entry(&mut v, CheckerTool::Fmt, &self.fmt);
        push_opt_entry(&mut v, CheckerTool::Clippy, &self.clippy);
        push_opt_entry(&mut v, CheckerTool::Miri, &self.miri);
        push_opt_entry(&mut v, CheckerTool::SemverChecks, &self.semver_checks);
        push_opt_entry(&mut v, CheckerTool::Lockbud, &self.lockbud);
        let ghost fields = v@.map_values(|e: (CheckerTool, Action)| (e.0, e.1@));
        proof {
            assert(fields =~= Seq::<(CheckerTool, ActionSpec)>::empty() + spec_opt_entry(
                CheckerTool::All,
                self.all,
            ) + spec_opt_entry(CheckerTool::Fmt, self.fmt) + spec_opt_entry(
                CheckerTool::Clippy,
                self.clippy,
            ) + spec_opt_entry(CheckerTool::Miri, self.miri) + spec_opt_entry(
                CheckerTool::SemverChecks,
                self.semver_checks,
            ) + spec_opt_entry(CheckerTool::Lockbud, self.lockbud));
        }
        match &self.packages {
            Some(m) => {
                let n = m.len();
                let mut i: usize = 0;
                proof {
                    assert(spec_nested_actions(m@.subrange(0, 0)) =~= Seq::<
                        (CheckerTool, ActionSpec),
                    >::empty());
                    assert(v@.map_values(|e: (CheckerTool, Action)| (e.0, e.1@)) =~= fields
                        + spec_nested_actions(m@.subrange(0, 0)));
                }
                while i < n
                    invariant
                        0 <= i <= n,
                        n == m@.len(),
                        self.packages == Some(*m),
                        v@.map_values(|e: (CheckerTool, Action)| (e.0, e.1@)) == fields
                            + spec_nested_actions(m@.subrange(0, i as int)),
                    decreases n - i,
                {
                    let conf = &m[i].1;
                    proof {
                        assert(decreases_to!(*self => self.packages));
                        assert(self.packages->Some_0 == *m);
                        assert(decreases_to!(self.packages => self.packages->Some_0));
                        assert(decreases_to!(*m => m@[i as int]));
                        assert(decreases_to!(m@[i as int] => m@[i as int].1));
                        assert(decreases_to!(*self => *conf));
                    }
                    let mut sub = conf.checker_action();
                    let ghost pre = v@.map_values(|e: (CheckerTool, Action)| (e.0, e.1@));
                    let ghost subv = sub@.map_values(|e: (CheckerTool, Action)| (e.0, e.1@));
                    v.append(&mut sub);
                    proof {
                        assert(v@.map_values(|e: (CheckerTool, Action)| (e.0, e.1@)) =~= pre
                            + subv);
                        let prefix = m@.subrange(0, i as int);
                        let one = seq![m@[i as int]];
                        lemma_nested_actions_concat(prefix, one);
                        assert(prefix + one =~= m@.subrange(0, i + 1));
                        assert(one.drop_first() =~= Seq::<(String, RepoConfig)>::empty());
                        assert(spec_nested_actions(one.drop_first()) =~= Seq::<
                            (CheckerTool, ActionSpec),
                        >::empty());
                        assert(spec_nested_actions(one) =~= spec_checker_action(m@[i as int].1));
                        assert(pre + subv =~= fields + spec_nested_actions(m@.subrange(0, i + 1)));
                    }
                    i += 1;
                }
                proof {
                    assert(m@.subrange(0, n as int) =~= m@);
                }
            },
            None => {
                proof {
                    assert(fields + Seq::<(CheckerTool, ActionSpec)>::empty() =~= fields);
                }
            },
        }
        v
    }

    /// Validate every action in the tree against its checker; the first
    /// failure is returned.
    pub fn check_tool_action(&self) -> (r: Result<(), Error>)
        ensures
            match r {
                Ok(()) => spec_first_check_err(spec_checker_action(*self)) is None,
                Err(e) => spec_first_check_err(spec_checker_action(*self)) == Some(e@),
            },
    {
        let list = self.checker_action();
        let ghost lv = list@.map_values(|e: (CheckerTool, Action)| (e.0, e.1@));
        let n = list.len();
        let mut i: usize = 0;
        while i < n
            invariant
                0 <= i <= n,
                n == list@.len(),
                lv == list@.map_values(|e: (CheckerTool, Action)| (e.0, e.1@)),
                lv == spec_checker_action(*self),
                forall|j: int|
                    0 <= j < i ==> Action::spec_check((#[trigger] lv[j]).1, lv[j].0) is None,
            decreases n - i,
        {
            let t = list[i].0;
            proof {
                assert(lv[i as int] == (list@[i as int].0, list@[i as int].1@));
            }
            match list[i].1.check(t) {
                Ok(()) => {},
                Err(e) => {
                    proof {
                        lemma_first_check_err_at(lv, i as int);
                    }
                    return Err(e);
                },
            }
            i += 1;
        }
        proof {
            lemma_first_check_err_none(lv);
        }
        Ok(())
    }
}

proof fn lemma_first_check_err_at(list: Seq<(CheckerTool, ActionSpec)>, i: int)
    requires
        0 <= i < list.len(),
        Action::spec_check(list[i].1, list[i].0) is Some,
        forall|j: int| 0 <= j < i ==> Action::spec_check((#[trigger] list[j]).1, list[j].0) is None,
    ensures
        spec_first_check_err(list) == Action::spec_check(list[i].1, list[i].0),
    decreases i,
{
    if i > 0 {
        lemma_first_check_err_at(list.drop_first(), i - 1);
    }
}

proof fn lemma_first_check_err_none(list: Seq<(CheckerTool, ActionSpec)>)
    requires
        forall|j: int|
            0 <= j < list.len() ==> Action::spec_check((#[trigger] list[j]).1, list[j].0) is None,
    ensures
        spec_first_check_err(list) is None,
    decreases list.len(),
{
    if list.len() > 0 {
        lemma_first_check_err_none(list.drop_first());
    }
}

proof fn lemma_nested_actions_concat(a: Seq<(String, RepoConfig)>, b: Seq<(String, RepoConfig)>)
    ensures
        spec_nested_actions(a + b) == spec_nested_actions(a) + spec_nested_actions(b),
    decreases a.len(),
{
    if a.len() == 0 {
        assert(a + b =~= b);
        assert(Seq::<(CheckerTool, ActionSpec)>::empty() + spec_nested_actions(b)
            =~= spec_nested_actions(b));
    } else {
        assert((a + b).drop_first() =~= a.drop_first() + b);
        lemma_nested_actions_concat(a.drop_first(), b);
        assert((a + b)[0] == a[0]);
        assert(spec_checker_action(a[0].1) + (spec_nested_actions(a.drop_first())
            + spec_nested_actions(b)) =~= (spec_checker_action(a[0].1) + spec_nested_actions(
            a.drop_first(),
        )) + spec_nested_actions(b));
    }
}

/// Append the entry of one optional action.
fn push_opt_entry(v: &mut Vec<(CheckerTool, Action)>, t: CheckerTool, a: &Option<Action>)
    ensures
        final(v)@.map_values(|e: (CheckerTool, Action)| (e.0, e.1@)) == old(v)@.map_values(
            |e: (CheckerTool, Action)| (e.0, e.1@),
        ) + spec_opt_entry(t, *a),
{
    match a {
        Some(x) => {
            let d = x.duplicate();
            let ghost dv = d@;
            let pair = (t, d);
            let ghost pr = pair;
            v.push(pair);
            proof {
                assert(v@.map_values(|e: (CheckerTool, Action)| (e.0, e.1@)) =~= old(
                    v,
                )@.map_values(|e: (CheckerTool, Action)| (e.0, e.1@)).push((t, dv)));
                assert(old(v)@.map_values(|e: (CheckerTool, Action)| (e.0, e.1@)).push((t, dv))
                    =~= old(v)@.map_values(|e: (CheckerTool, Action)| (e.0, e.1@)) + seq![(t, dv)]);
            }
        },
        None => {
            proof {
                assert(v@.map_values(|e: (CheckerTool, Action)| (e.0, e.1@)) =~= old(
                    v,
                )@.map_values(|e: (CheckerTool, Action)| (e.0, e.1@)) + Seq::<
                    (CheckerTool, ActionSpec),
                >::empty());
            }
        },
    }
}

impl Config {
    /// Validate the configuration after loading: every custom command must
    /// belong to its checker.
    pub fn check_fork(self) -> (r: Result<Config, Error>)
        ensures
            match r {
                Ok(c) => c == self && spec_first_check_err(spec_checker_action(self.config))
                    is None,
                Err(e) => spec_first_check_err(spec_checker_action(self.config)) == Some(e@),
            },
    {
        match self.config.check_tool_action() {
            Ok(()) => Ok(self),
            Err(e) => Err(e),
        }
    }
}

} // verus!
