//! The rules of `fiducia docs`: which publication configurations are accepted,
//! and where their paths may point (as Unix paths). Reading the configuration, rendering the
//! bundle and writing files are done by the caller.

use vstd::prelude::*;

use crate::error::{CliError, ErrorKind};
use crate::output::Report;
use crate::text::{chars_equal, chars_of, decimal, push_decimal, push_str, str_equal, trimmed};

verus! {

/// The project-local configuration file of `fiducia docs`.
pub const CONFIG_FILE: &'static str = ".api-docs.toml";

/// The one configuration schema this version understands.
pub const CONFIG_SCHEMA_VERSION: &'static str = "ores.api-docs.publication-config.v1";

/// The publication configuration, as read from `.api-docs.toml`.
#[derive(Clone, Debug)]
pub struct DocsConfig {
    pub schema_version: String,
    pub route_map: String,
    pub out_dir: String,
    pub publication_mode: String,
    pub producer: String,
}

/// Who the rendered documentation is published for.
#[derive(Clone, Copy, Debug, PartialEq, Eq, Structural)]
pub enum PublicationMode {
    /// Fiducia-owned external developer documentation.
    PublisherExternal,
    /// A tenant project's own documentation.
    ConsumerProject,
}

/// The configuration spelling of each mode.
pub open spec fn mode_name(m: PublicationMode) -> Seq<char> {
    match m {
        PublicationMode::PublisherExternal => "publisher_external"@,
        PublicationMode::ConsumerProject => "consumer_project"@,
    }
}

/// The mode a configuration value names, if any.
pub open spec fn mode_for(value: Seq<char>) -> Option<PublicationMode> {
    if value == "publisher_external"@ {
        Some(PublicationMode::PublisherExternal)
    } else if value == "consumer_project"@ {
        Some(PublicationMode::ConsumerProject)
    } else {
        None
    }
}

/// The message for a mode that is neither of the two.
pub open spec fn bad_mode_message() -> Seq<char> {
    "publication_mode must be publisher_external or consumer_project"@
}

impl PublicationMode {
    /// The configuration spelling of this mode.
    pub fn as_str(self) -> (s: &'static str)
        ensures
            s@ == mode_name(self),
    {
        match self {
            PublicationMode::PublisherExternal => "publisher_external",
            PublicationMode::ConsumerProject => "consumer_project",
        }
    }
}

/// Reads a publication mode; the set is closed.
pub fn publication_mode(value: &str) -> (r: Result<PublicationMode, CliError>)
    ensures
        match mode_for(value@) {
            Some(m) => r == Ok::<PublicationMode, CliError>(m),
            None => r matches Err(e) && e@ == (ErrorKind::Config, bad_mode_message()),
        },
{
    if str_equal(value, "publisher_external") {
        Ok(PublicationMode::PublisherExternal)
    } else if str_equal(value, "consumer_project") {
        Ok(PublicationMode::ConsumerProject)
    } else {
        let mut msg = String::new();
        push_str(&mut msg, "publication_mode must be publisher_external or consumer_project");
        Err(CliError::config(msg))
    }
}

/// `s` cut at every `/` (`str::split('/')`): the pieces between slashes, empty
/// ones included.
pub open spec fn split_slash(s: Seq<char>) -> Seq<Seq<char>>
    decreases s.len(),
{
    if s.len() == 0 {
        seq![Seq::empty()]
    } else if s.last() == '/' {
        split_slash(s.drop_last()).push(Seq::empty())
    } else {
        let p = split_slash(s.drop_last());
        p.update(p.len() - 1, p.last().push(s.last()))
    }
}

/// A piece that is a normal path component: not empty, `.` or `..`.
pub open spec fn is_normal_piece(p: Seq<char>) -> bool {
    p.len() > 0 && p != "."@ && p != ".."@
}

/// The path has a normal component (a Unix path's components are its
/// slash-separated pieces, with empty and `.` pieces dropped).
pub open spec fn has_normal_component(s: Seq<char>) -> bool {
    exists|k: int| 0 <= k < split_slash(s).len() && is_normal_piece(#[trigger] split_slash(s)[k])
}

/// The path has a `..` component.
pub open spec fn has_parent_component(s: Seq<char>) -> bool {
    exists|k: int| 0 <= k < split_slash(s).len() && #[trigger] split_slash(s)[k] == ".."@
}

/// A configured path that stays inside the project: not blank, naming
/// something, not absolute, and never stepping up with `..`. Paths are Unix
/// paths: `/` is the only separator, and a leading `/` is the root (the
/// components `std::path::Path` gives on Unix); drive prefixes and `\`
/// separators are not recognized.
pub open spec fn is_project_relative(s: Seq<char>) -> bool {
    &&& trimmed(s).len() > 0
    &&& has_normal_component(s)
    &&& !(s.len() > 0 && s[0] == '/')
    &&& !has_parent_component(s)
}

/// The message for a path that is not project-relative.
pub open spec fn bad_path_message(name: Seq<char>) -> Seq<char> {
    name + " must be a non-empty project-relative path without parent traversal"@
}

fn piece_kind(cur: &Vec<char>) -> (r: (bool, bool))
    ensures
        r.0 == is_normal_piece(cur@),
        r.1 == (cur@ == ".."@),
{
    let dot = chars_equal(cur, ".");
    let dotdot = chars_equal(cur, "..");
    (cur.len() > 0 && !dot && !dotdot, dotdot)
}

/// Checks that a configured path is project-relative, read as a Unix path.
pub fn validate_relative_path(configured: &str, name: &str) -> (r: Result<(), CliError>)
    ensures
        is_project_relative(configured@) ==> r is Ok,
        !is_project_relative(configured@) ==> (r matches Err(e) && e@ == (
            ErrorKind::Config,
            bad_path_message(name@),
        )),
{
    let v = chars_of(configured);
    let n = v.len();
    let mut cur: Vec<char> = Vec::new();
    let mut normal = false;
    let mut parent = false;
    let mut i: usize = 0;
    assert(v@.take(0) =~= Seq::<char>::empty());
    while i < n
        invariant
            n == v@.len(),
            i <= n,
            split_slash(v@.take(i as int)).len() >= 1,
            cur@ == split_slash(v@.take(i as int)).last(),
            normal == exists|k: int|
                0 <= k < split_slash(v@.take(i as int)).len() - 1 && is_normal_piece(
                    #[trigger] split_slash(v@.take(i as int))[k],
                ),
            parent == exists|k: int|
                0 <= k < split_slash(v@.take(i as int)).len() - 1 && #[trigger] split_slash(
                    v@.take(i as int),
                )[k] == ".."@,
        decreases n - i,
    {
        let ghost before = v@.take(i as int);
        let ghost p = split_slash(before);
        let c = v[i];
        assert(v@.take(i + 1).drop_last() == before);
        assert(v@.take(i + 1).last() == c);
        if c == '/' {
            let (nm, pr) = piece_kind(&cur);
            proof {
                let q = split_slash(v@.take(i + 1));
                assert(q == p.push(Seq::<char>::empty()));
                assert((normal || nm) == exists|k: int|
                    0 <= k < q.len() - 1 && is_normal_piece(#[trigger] q[k])) by {
                    if normal {
                        let k = choose|k: int| 0 <= k < p.len() - 1 && is_normal_piece(#[trigger] p[k]);
                        assert(q[k] == p[k]);
                    }
                    if nm {
                        assert(q[p.len() - 1] == p.last());
                    }
                    if exists|k: int| 0 <= k < q.len() - 1 && is_normal_piece(#[trigger] q[k]) {
                        let k = choose|k: int| 0 <= k < q.len() - 1 && is_normal_piece(#[trigger] q[k]);
                        if k < p.len() - 1 {
                            assert(p[k] == q[k]);
                        }
                    }
                }
                assert((parent || pr) == exists|k: int|
                    0 <= k < q.len() - 1 && #[trigger] q[k] == ".."@) by {
                    if parent {
                        let k = choose|k: int| 0 <= k < p.len() - 1 && #[trigger] p[k] == ".."@;
                        assert(q[k] == p[k]);
                    }
                    if pr {
                        assert(q[p.len() - 1] == p.last());
                    }
                    if exists|k: int| 0 <= k < q.len() - 1 && #[trigger] q[k] == ".."@ {
                        let k = choose|k: int| 0 <= k < q.len() - 1 && #[trigger] q[k] == ".."@;
                        if k < p.len() - 1 {
                            assert(p[k] == q[k]);
                        }
                    }
                }
            }
            normal = normal || nm;
            parent = parent || pr;
            cur = Vec::new();
        } else {
            cur.push(c);
            proof {
                let q = split_slash(v@.take(i + 1));
                assert(q == p.update(p.len() - 1, p.last().push(c)));
                assert forall|k: int| 0 <= k < q.len() - 1 implies #[trigger] q[k] == p[k] by {}
                if normal {
                    let k = choose|k: int| 0 <= k < p.len() - 1 && is_normal_piece(#[trigger] p[k]);
                    assert(q[k] == p[k]);
                }
                if exists|k: int| 0 <= k < q.len() - 1 && is_normal_piece(#[trigger] q[k]) {
                    let k = choose|k: int| 0 <= k < q.len() - 1 && is_normal_piece(#[trigger] q[k]);
                    assert(p[k] == q[k]);
                }
                if parent {
                    let k = choose|k: int| 0 <= k < p.len() - 1 && #[trigger] p[k] == ".."@;
                    assert(q[k] == p[k]);
                }
                if exists|k: int| 0 <= k < q.len() - 1 && #[trigger] q[k] == ".."@ {
                    let k = choose|k: int| 0 <= k < q.len() - 1 && #[trigger] q[k] == ".."@;
                    assert(p[k] == q[k]);
                }
            }
        }
        i = i + 1;
    }
    assert(v@.take(n as int) == v@);
    let (nm, pr) = piece_kind(&cur);
    let ghost p = split_slash(v@);
    assert((normal || nm) == has_normal_component(configured@)) by {
        if nm {
            assert(p[p.len() - 1] == cur@);
        }
        if normal {
            let k = choose|k: int| 0 <= k < p.len() - 1 && is_normal_piece(#[trigger] p[k]);
        }
        if has_normal_component(configured@) {
            let k = choose|k: int| 0 <= k < p.len() && is_normal_piece(#[trigger] p[k]);
            if k == p.len() - 1 {
                assert(nm);
            }
        }
    }
    assert((parent || pr) == has_parent_component(configured@)) by {
        if pr {
            assert(p[p.len() - 1] == cur@);
        }
        if parent {
            let k = choose|k: int| 0 <= k < p.len() - 1 && #[trigger] p[k] == ".."@;
        }
        if has_parent_component(configured@) {
            let k = choose|k: int| 0 <= k < p.len() && #[trigger] p[k] == ".."@;
            if k == p.len() - 1 {
                assert(pr);
            }
        }
    }
    let t = crate::text::trim(configured);
    let blank = chars_of(t.as_str()).len() == 0;
    let absolute = n > 0 && v[0] == '/';
    if blank || !(normal || nm) || absolute || parent || pr {
        let mut msg = String::new();
        push_str(&mut msg, name);
        push_str(&mut msg, " must be a non-empty project-relative path without parent traversal");
        return Err(CliError::config(msg));
    }
    Ok(())
}

/// `root` joined with a relative path (`Path::join` on Unix): a `/` is put
/// between them unless `root` is empty or already ends with one.
pub open spec fn joined_path(root: Seq<char>, rel: Seq<char>) -> Seq<char> {
    if root.len() == 0 || root.last() == '/' {
        root + rel
    } else {
        root + "/"@ + rel
    }
}

/// Resolves a configured path under the project root, refusing any path that
/// is not project-relative; both are Unix paths.
pub fn resolve_project_path(project_root: &str, configured: &str, name: &str) -> (r: Result<
    String,
    CliError,
>)
    ensures
        is_project_relative(configured@) ==> (r matches Ok(p) && p@ == joined_path(
            project_root@,
            configured@,
        )),
        !is_project_relative(configured@) ==> (r matches Err(e) && e@ == (
            ErrorKind::Config,
            bad_path_message(name@),
        )),
{
    match validate_relative_path(configured, name) {
        Err(e) => Err(e),
        Ok(()) => {
            let root = chars_of(project_root);
            let mut out = String::new();
            push_str(&mut out, project_root);
            if root.len() > 0 && root[root.len() - 1] != '/' {
                push_str(&mut out, "/");
            }
            push_str(&mut out, configured);
            Ok(out)
        },
    }
}

/// The message for an unexpected schema version.
pub open spec fn bad_schema_message() -> Seq<char> {
    ".api-docs.toml schema_version must be ores.api-docs.publication-config.v1"@
}

/// The message for a blank producer.
pub open spec fn empty_producer_message() -> Seq<char> {
    "producer must not be empty"@
}

/// The first check a publication configuration fails, if any.
pub open spec fn config_failure(c: DocsConfig) -> Option<Seq<char>> {
    if c.schema_version@ != CONFIG_SCHEMA_VERSION@ {
        Some(bad_schema_message())
    } else if mode_for(c.publication_mode@) is None {
        Some(bad_mode_message())
    } else if !is_project_relative(c.route_map@) {
        Some(bad_path_message("route_map"@))
    } else if !is_project_relative(c.out_dir@) {
        Some(bad_path_message("out_dir"@))
    } else if trimmed(c.producer@).len() == 0 {
        Some(empty_producer_message())
    } else {
        None
    }
}

/// Checks a publication configuration: the schema version, a known mode,
/// project-relative `route_map` and `out_dir`, and a producer.
pub fn validate_config(config: &DocsConfig) -> (r: Result<(), CliError>)
    ensures
        match config_failure(*config) {
            None => r is Ok,
            Some(m) => r matches Err(e) && e@ == (ErrorKind::Config, m),
        },
{
    if !str_equal(config.schema_version.as_str(), CONFIG_SCHEMA_VERSION) {
        let mut msg = String::new();
        push_str(&mut msg, ".api-docs.toml schema_version must be ores.api-docs.publication-config.v1");
        return Err(CliError::config(msg));
    }
    if let Err(e) = publication_mode(config.publication_mode.as_str()) {
        return Err(e);
    }
    if let Err(e) = validate_relative_path(config.route_map.as_str(), "route_map") {
        return Err(e);
    }
    if let Err(e) = validate_relative_path(config.out_dir.as_str(), "out_dir") {
        return Err(e);
    }
    let producer = crate::text::trim(config.producer.as_str());
    if chars_of(producer.as_str()).len() == 0 {
        let mut msg = String::new();
        push_str(&mut msg, "producer must not be empty");
        return Err(CliError::config(msg));
    }
    Ok(())
}

/// What `fiducia docs` reports after writing a bundle.
#[derive(Debug)]
pub struct DocsReport {
    pub service: String,
    pub publication_mode: String,
    pub producer: String,
    pub contract_sha256: String,
    pub artifact_count: usize,
    pub out_dir: String,
}

impl Report for DocsReport {
    fn render_human(&self) -> (out: String)
        ensures
            out@ == "generated "@ + decimal(self.artifact_count as nat)
                + " deterministic API/MCP docs artifacts for "@ + self.service@ + " ("@
                + self.publication_mode@ + ") in "@ + self.out_dir@,
    {
        let mut out = String::new();
        push_str(&mut out, "generated ");
        push_decimal(&mut out, self.artifact_count as u64);
        push_str(&mut out, " deterministic API/MCP docs artifacts for ");
        push_str(&mut out, self.service.as_str());
        push_str(&mut out, " (");
        push_str(&mut out, self.publication_mode.as_str());
        push_str(&mut out, ") in ");
        push_str(&mut out, self.out_dir.as_str());
        out
    }
}

} // verus!
