//! From the flags parser's output and the environment to a validated [`CliArgs`].
//!
//! The order of operations is fixed:
//!
//! 1. the parser's structured result is checked first: unknown options,
//!    invalid values and stray operands fail closed ([`check_parsed`]);
//! 2. the configuration is layered: process environment, without the
//!    parser-owned `FLAGS2ENV_COMMAND`, then the argv-provided flags on top
//!    ([`layer_config`]);
//! 3. after typed coercion, the values are range-checked here, where the message
//!    can name the flag ([`build_cli_args`]).
//!
//! Only argv-provided flags are layered over the environment, never the schema
//! defaults, so a default can never beat an environment variable the operator
//! set.

use vstd::prelude::*;

use crate::commands::{command_for, unknown_command_message, Command};
use crate::env_map::{get_env_map, overlay, EnvMap};
use crate::error::{CliError, ErrorKind};
use crate::probe::ProbeSettings;
use crate::regions::{
    no_region_message, normalize_regions, normalized, region_views, select_regions, select_views,
    Region,
};
use crate::text::{
    chars_of, chars_start_with, decimal, has_prefix, is_control, is_control_char, joined,
    push_decimal, push_range, push_str, str_equal, trim, trimmed,
};

verus! {

/// Everything a command needs, already validated.
#[derive(Debug)]
pub struct CliArgs {
    pub command: Command,
    pub regions_file: String,
    pub samples: usize,
    pub health_path: String,
    pub timeout_ms: u64,
    pub warmup: usize,
    /// Empty means "every region".
    pub only_region: String,
    pub json: bool,
    /// `health --url`: a node URL that bypasses the regions file.
    pub node_url: Option<String>,
    /// `completion --shell`.
    pub shell: String,
    /// The environment at parse time, with the argv-provided flags layered on top.
    pub env: EnvMap,
}

/// What reading and decoding the regions file gave.
#[derive(Debug)]
pub enum RegionsSource {
    /// The file could not be read; the text is the I/O error.
    Unreadable(String),
    /// The file is not a JSON array of `{ name, url }`; the text is the decoder's.
    Malformed(String),
    /// The decoded regions, not yet checked.
    Decoded(Vec<Region>),
}

/// An error as the kind and text it carries.
pub type ErrorView = (ErrorKind, Seq<char>);

/// A region list result as the texts it holds.
pub open spec fn regions_result_view(r: Result<Vec<Region>, CliError>) -> Result<
    Seq<(Seq<char>, Seq<char>)>,
    ErrorView,
> {
    match r {
        Ok(v) => Ok(region_views(v@)),
        Err(e) => Err(e@),
    }
}

/// The message for a regions file that cannot be read.
pub open spec fn unreadable_message(file: Seq<char>, error: Seq<char>) -> Seq<char> {
    "cannot read regions file "@ + file + ": "@ + error
}

/// The message for a regions file whose content is not a valid region list.
pub open spec fn invalid_regions_message(error: Seq<char>) -> Seq<char> {
    "invalid regions file: "@ + error
}

/// What loading the regions gives: a read failure is a runtime error, a bad
/// document a configuration error, an `--only` that matches nothing a usage
/// error; otherwise the normalized regions that `--only` keeps.
pub open spec fn load_outcome(file: Seq<char>, only: Seq<char>, source: RegionsSource) -> Result<
    Seq<(Seq<char>, Seq<char>)>,
    ErrorView,
> {
    match source {
        RegionsSource::Unreadable(e) => Err((ErrorKind::Runtime, unreadable_message(file, e@))),
        RegionsSource::Malformed(e) => Err((ErrorKind::Config, invalid_regions_message(e@))),
        RegionsSource::Decoded(rs) => match normalized(rs@) {
            Err(m) => Err((ErrorKind::Config, invalid_regions_message(m))),
            Ok(vs) => if only.len() > 0 && select_views(vs, only).len() == 0 {
                Err((ErrorKind::Usage, no_region_message(only)))
            } else {
                Ok(select_views(vs, only))
            },
        },
    }
}

/// A resolved node (region name, if it came from the regions file, and URL) as texts.
pub type NodeView = (Option<Seq<char>>, Seq<char>);

/// A node result as the texts it holds.
pub open spec fn node_result_view(r: Result<(Option<String>, String), CliError>) -> Result<
    NodeView,
    ErrorView,
> {
    match r {
        Ok((name, url)) => Ok(
            (
                match name {
                    Some(n) => Some(n@),
                    None => None,
                },
                url@,
            ),
        ),
        Err(e) => Err(e@),
    }
}

/// The `--url` as given, trimmed, unless it is absent or blank.
pub open spec fn given_url(node_url: Option<String>) -> Option<Seq<char>> {
    match node_url {
        Some(u) => if trimmed(u@).len() > 0 {
            Some(trimmed(u@))
        } else {
            None
        },
        None => None,
    }
}

/// The message for a `--url` without an HTTP scheme.
pub open spec fn url_scheme_message() -> Seq<char> {
    "--url must start with http:// or https://"@
}

/// The message when the regions narrow to nothing.
pub open spec fn no_regions_message() -> Seq<char> {
    "no regions to query; pass --url or a non-empty --regions file"@
}

/// The message when several regions remain: their count and names.
pub open spec fn ambiguous_node_message(vs: Seq<(Seq<char>, Seq<char>)>) -> Seq<char> {
    "--only or --url is required: "@ + decimal(vs.len()) + " regions are selectable ("@ + joined(
        vs.map_values(|v: (Seq<char>, Seq<char>)| v.0),
        ", "@,
    ) + ")"@
}

/// The one node a region list narrows to, if it narrows to exactly one.
pub open spec fn single_node(vs: Seq<(Seq<char>, Seq<char>)>) -> Result<NodeView, ErrorView> {
    if vs.len() == 1 {
        Ok((Some(vs[0].0), vs[0].1))
    } else if vs.len() == 0 {
        Err((ErrorKind::Usage, no_regions_message()))
    } else {
        Err((ErrorKind::Usage, ambiguous_node_message(vs)))
    }
}

/// The node that `--url` alone decides, when it is given.
pub open spec fn direct_outcome(node_url: Option<String>) -> Option<Result<NodeView, ErrorView>> {
    match given_url(node_url) {
        Some(u) => Some(
            if has_prefix(u, "https://"@) || has_prefix(u, "http://"@) {
                Ok((None, u))
            } else {
                Err((ErrorKind::Usage, url_scheme_message()))
            },
        ),
        None => None,
    }
}

/// The node `health` talks to: `--url` wins outright; otherwise the loaded
/// regions must narrow to exactly one.
pub open spec fn node_outcome(
    node_url: Option<String>,
    file: Seq<char>,
    only: Seq<char>,
    source: RegionsSource,
) -> Result<NodeView, ErrorView> {
    match direct_outcome(node_url) {
        Some(r) => r,
        None => match load_outcome(file, only, source) {
            Err(e) => Err(e),
            Ok(vs) => single_node(vs),
        },
    }
}

/// Without a usable `--url`, `health` talks to a region only when the loaded
/// regions number exactly one, and then to that region; two or more, or none,
/// are a usage error, never a silent pick.
pub proof fn lemma_node_needs_exactly_one_region(
    node_url: Option<String>,
    file: Seq<char>,
    only: Seq<char>,
    source: RegionsSource,
)
    requires
        direct_outcome(node_url) is None,
        load_outcome(file, only, source) is Ok,
    ensures
        ({
            let vs = load_outcome(file, only, source)->Ok_0;
            let r = node_outcome(node_url, file, only, source);
            &&& r is Ok <==> vs.len() == 1
            &&& vs.len() == 1 ==> r == Ok::<NodeView, ErrorView>((Some(vs[0].0), vs[0].1))
            &&& vs.len() != 1 ==> (r matches Err(e) && e.0 == ErrorKind::Usage)
        }),
{
}

impl CliArgs {
    /// Checks the decoded regions file and applies `--only`.
    pub fn load_regions(&self, source: RegionsSource) -> (r: Result<Vec<Region>, CliError>)
        ensures
            regions_result_view(r) == load_outcome(
                self.regions_file@,
                self.only_region@,
                source,
            ),
    {
        match source {
            RegionsSource::Unreadable(error) => {
                let mut msg = String::new();
                push_str(&mut msg, "cannot read regions file ");
                push_str(&mut msg, self.regions_file.as_str());
                push_str(&mut msg, ": ");
                push_str(&mut msg, error.as_str());
                Err(CliError::runtime(msg))
            },
            RegionsSource::Malformed(error) => {
                let mut msg = String::new();
                push_str(&mut msg, "invalid regions file: ");
                push_str(&mut msg, error.as_str());
                Err(CliError::config(msg))
            },
            RegionsSource::Decoded(regions) => {
                match normalize_regions(regions) {
                    Err(error) => {
                        let mut msg = String::new();
                        push_str(&mut msg, "invalid regions file: ");
                        push_str(&mut msg, error.as_str());
                        Err(CliError::config(msg))
                    },
                    Ok(normal) => match select_regions(normal, self.only_region.as_str()) {
                        Ok(kept) => Ok(kept),
                        Err(error) => Err(CliError::usage(error)),
                    },
                }
            },
        }
    }

    /// How to probe, from the validated flags.
    pub fn probe_settings(&self) -> (p: ProbeSettings)
        ensures
            p.health_path@ == self.health_path@,
            p.samples == self.samples,
            p.warmup == self.warmup,
            p.timeout_ms == self.timeout_ms,
    {
        ProbeSettings {
            health_path: self.health_path.clone(),
            samples: self.samples,
            warmup: self.warmup,
            timeout_ms: self.timeout_ms,
        }
    }

    /// The node that `--url` decides on its own, if it was given and is not blank.
    pub fn direct_node(&self) -> (r: Option<Result<(Option<String>, String), CliError>>)
        ensures
            match r {
                Some(res) => direct_outcome(self.node_url) == Some(node_result_view(res)),
                None => direct_outcome(self.node_url) is None,
            },
    {
        match &self.node_url {
            None => None,
            Some(url) => {
                let t = trim(url.as_str());
                let tc = chars_of(t.as_str());
                if tc.len() == 0 {
                    None
                } else if chars_start_with(&tc, "https://") || chars_start_with(&tc, "http://") {
                    Some(Ok((None, t)))
                } else {
                    let mut msg = String::new();
                    push_str(&mut msg, "--url must start with http:// or https://");
                    Some(Err(CliError::usage(msg)))
                }
            },
        }
    }

    /// Picks the single node `health` should talk to. `--url` wins outright and
    /// then `source` is not looked at. Otherwise the regions must narrow to
    /// exactly one, because silently probing the first of several would make the
    /// answer depend on file order.
    pub fn resolve_node(&self, source: RegionsSource) -> (r: Result<
        (Option<String>, String),
        CliError,
    >)
        ensures
            node_result_view(r) == node_outcome(
                self.node_url,
                self.regions_file@,
                self.only_region@,
                source,
            ),
            direct_outcome(self.node_url) is None && load_outcome(
                self.regions_file@,
                self.only_region@,
                source,
            ) is Ok ==> (r is Ok <==> load_outcome(
                self.regions_file@,
                self.only_region@,
                source,
            )->Ok_0.len() == 1),
            direct_outcome(self.node_url) is None && load_outcome(
                self.regions_file@,
                self.only_region@,
                source,
            ) is Ok && load_outcome(self.regions_file@, self.only_region@, source)->Ok_0.len() != 1
                ==> (r matches Err(e) && e@.0 == ErrorKind::Usage),
    {
        proof {
            if direct_outcome(self.node_url) is None && load_outcome(
                self.regions_file@,
                self.only_region@,
                source,
            ) is Ok {
                lemma_node_needs_exactly_one_region(
                    self.node_url,
                    self.regions_file@,
                    self.only_region@,
                    source,
                );
            }
        }
        if let Some(direct) = self.direct_node() {
            return direct;
        }
        let ghost src = source;
        let regions = match self.load_regions(source) {
            Ok(regions) => regions,
            Err(e) => {
                return Err(e);
            },
        };
        let ghost vs = region_views(regions@);
        assert(load_outcome(self.regions_file@, self.only_region@, src) == Ok::<
            Seq<(Seq<char>, Seq<char>)>,
            ErrorView,
        >(vs));
        if regions.len() == 1 {
            let name = regions[0].name.clone();
            let url = regions[0].url.clone();
            return Ok((Some(name), url));
        }
        if regions.len() == 0 {
            let mut msg = String::new();
            push_str(&mut msg, "no regions to query; pass --url or a non-empty --regions file");
            return Err(CliError::usage(msg));
        }
        let mut msg = String::new();
        push_str(&mut msg, "--only or --url is required: ");
        push_decimal(&mut msg, regions.len() as u64);
        push_str(&mut msg, " regions are selectable (");
        let ghost names = vs.map_values(|v: (Seq<char>, Seq<char>)| v.0);
        let ghost start = msg@;
        let mut i: usize = 0;
        while i < regions.len()
            invariant
                i <= regions@.len(),
                names.len() == regions@.len(),
                forall|j: int| 0 <= j < regions@.len() ==> #[trigger] names[j] == regions@[j].name@,
                msg@ == start + joined(names.take(i as int), ", "@),
            decreases regions@.len() - i,
        {
            if i > 0 {
                push_str(&mut msg, ", ");
            }
            push_str(&mut msg, regions[i].name.as_str());
            proof {
                let t = names.take(i + 1);
                assert(t.drop_last() == names.take(i as int));
                if i == 0 {
                    assert(names.take(0).len() == 0);
                }
            }
            i = i + 1;
        }
        push_str(&mut msg, ")");
        assert(names.take(regions@.len() as int) == names);
        Err(CliError::usage(msg))
    }
}

/// `s` up to its first `=`.
pub open spec fn before_equals(s: Seq<char>) -> Seq<char>
    decreases s.len(),
{
    if s.len() == 0 || s[0] == '=' {
        Seq::empty()
    } else {
        seq![s[0]] + before_equals(s.drop_first())
    }
}

/// How an unknown option appears in a diagnostic: a long option without any
/// `=value`, a short one by its first two characters.
pub open spec fn diagnostic_name(option: Seq<char>) -> Seq<char> {
    if has_prefix(option, "--"@) {
        "--"@ + before_equals(option.skip(2))
    } else if option.len() <= 2 {
        option
    } else {
        option.take(2)
    }
}

proof fn lemma_before_equals(s: Seq<char>)
    ensures
        has_prefix(s, before_equals(s)),
        !before_equals(s).contains('='),
        before_equals(s).len() < s.len() ==> s[before_equals(s).len() as int] == '=',
    decreases s.len(),
{
    if s.len() > 0 && s[0] != '=' {
        lemma_before_equals(s.drop_first());
        let r = before_equals(s.drop_first());
        assert(before_equals(s) == seq![s[0]] + r);
        assert(s.subrange(0, r.len() + 1 as int) =~= seq![s[0]] + s.drop_first().subrange(0, r.len() as int));
        if (seq![s[0]] + r).contains('=') {
            let i = choose|i: int| 0 <= i < r.len() + 1 && (seq![s[0]] + r)[i] == '=';
            assert(r[i - 1] == '=');
        }
    } else {
        assert(s.subrange(0, 0) =~= Seq::<char>::empty());
    }
}

/// A mistyped `--api-token=secret` cannot echo its secret: the diagnostic name
/// of an option is a prefix of it, and for a long option it stops before the
/// first `=`.
pub proof fn lemma_diagnostic_name_hides_value(option: Seq<char>)
    ensures
        has_prefix(option, diagnostic_name(option)),
        has_prefix(option, "--"@) ==> !diagnostic_name(option).skip(2).contains('='),
        has_prefix(option, "--"@) ==> diagnostic_name(option).len() < option.len() ==> option[diagnostic_name(
            option,
        ).len() as int] == '=',
{
    reveal_strlit("--");
    if has_prefix(option, "--"@) {
        let rest = option.skip(2);
        lemma_before_equals(rest);
        let b = before_equals(rest);
        assert(diagnostic_name(option).skip(2) == b);
        assert(option.subrange(0, b.len() + 2 as int) =~= "--"@ + rest.subrange(0, b.len() as int));
        if b.len() + 2 < option.len() {
            assert(option[b.len() + 2 as int] == rest[b.len() as int]);
        }
    } else if option.len() <= 2 {
        assert(option.subrange(0, option.len() as int) == option);
    } else {
        assert(option.subrange(0, 2) == option.take(2));
    }
}

/// The name under which an unknown option is reported, without its value.
pub fn diagnostic_option_name(option: &str) -> (name: String)
    ensures
        name@ == diagnostic_name(option@),
{
    proof {
        reveal_strlit("--");
    }
    let v = chars_of(option);
    let mut name = String::new();
    if chars_start_with(&v, "--") {
        let mut end: usize = 2;
        while end < v.len() && v[end] != '='
            invariant
                2 <= end <= v@.len(),
                v@.skip(2).subrange(0, end - 2) == before_equals(v@.skip(2)).take(end - 2),
                before_equals(v@.skip(2)).len() >= end - 2,
            decreases v@.len() - end,
        {
            proof {
                assert(v@.skip(2)[end - 2] == v@[end as int]);
                lemma_before_equals_step(v@.skip(2), (end - 2) as int);
            }
            end = end + 1;
        }
        proof {
            if end < v@.len() {
                assert(v@.skip(2)[end - 2] == v@[end as int]);
            }
            lemma_before_equals_end(v@.skip(2), (end - 2) as int);
            assert(v@.skip(2).subrange(0, end - 2) =~= v@.subrange(2, end as int));
        }
        push_str(&mut name, "--");
        push_range(&mut name, &v, 2, end);
    } else {
        let end = if v.len() <= 2 {
            v.len()
        } else {
            2
        };
        push_range(&mut name, &v, 0, end);
        assert(v@.subrange(0, v@.len() as int) == v@);
    }
    name
}

proof fn lemma_before_equals_step(s: Seq<char>, k: int)
    requires
        0 <= k < s.len(),
        s[k] != '=',
        s.subrange(0, k) == before_equals(s).take(k),
        before_equals(s).len() >= k,
    ensures
        s.subrange(0, k + 1) == before_equals(s).take(k + 1),
        before_equals(s).len() >= k + 1,
    decreases k,
{
    if k > 0 {
        assert(s[0] != '=') by {
            assert(s.subrange(0, k)[0] == s[0]);
        }
        let t = s.drop_first();
        assert(before_equals(s) == seq![s[0]] + before_equals(t));
        assert(t.subrange(0, k - 1) =~= s.subrange(1, k));
        assert(before_equals(s).take(k) =~= seq![s[0]] + before_equals(t).take(k - 1));
        assert(s.subrange(0, k).drop_first() =~= t.subrange(0, k - 1));
        assert(before_equals(s).take(k).drop_first() =~= before_equals(t).take(k - 1));
        assert(t.subrange(0, k - 1) == before_equals(t).take(k - 1));
        lemma_before_equals_step(t, k - 1);
        assert(s.subrange(0, k + 1) =~= seq![s[0]] + t.subrange(0, k));
        assert(before_equals(s).take(k + 1) =~= seq![s[0]] + before_equals(t).take(k));
    } else {
        assert(before_equals(s) == seq![s[0]] + before_equals(s.drop_first()));
        assert(s.subrange(0, 1) =~= before_equals(s).take(1));
    }
}

proof fn lemma_before_equals_end(s: Seq<char>, k: int)
    requires
        0 <= k <= s.len(),
        k < s.len() ==> s[k] == '=',
        s.subrange(0, k) == before_equals(s).take(k),
        before_equals(s).len() >= k,
    ensures
        s.subrange(0, k) == before_equals(s),
    decreases k,
{
    if k > 0 {
        assert(s[0] != '=') by {
            assert(s.subrange(0, k)[0] == s[0]);
            assert(before_equals(s).len() > 0);
        }
        let t = s.drop_first();
        assert(before_equals(s) == seq![s[0]] + before_equals(t));
        assert(t.subrange(0, k - 1) =~= s.subrange(1, k));
        assert(before_equals(s).take(k) =~= seq![s[0]] + before_equals(t).take(k - 1));
        assert(s.subrange(0, k).drop_first() =~= t.subrange(0, k - 1));
        assert(before_equals(s).take(k).drop_first() =~= before_equals(t).take(k - 1));
        assert(t.subrange(0, k - 1) == before_equals(t).take(k - 1));
        if k - 1 < t.len() {
            assert(t[k - 1] == s[k]);
        }
        lemma_before_equals_end(t, k - 1);
        assert(s.subrange(0, k) =~= seq![s[0]] + t.subrange(0, k - 1));
    } else {
        assert(before_equals(s).len() == 0) by {
            if s.len() > 0 {
                assert(s[0] == '=');
            }
        }
        assert(s.subrange(0, 0) =~= before_equals(s));
    }
}

} // verus!

verus! {

/// Range-checking a coerced integer flag: negative (or too large for the
/// target type) values and values outside `min..=max` are refused by name.
pub open spec fn bounded(value: int, name: Seq<char>, min: int, max: int, limit: int) -> Result<
    int,
    Seq<char>,
> {
    if value < 0 || value > limit {
        Err(name + " must be a non-negative integer"@)
    } else if min <= value <= max {
        Ok(value)
    } else {
        Err(name + " must be between "@ + decimal(min as nat) + " and "@ + decimal(max as nat))
    }
}

fn range_message(name: &str, min: u64, max: u64) -> (m: String)
    ensures
        m@ == name@ + " must be between "@ + decimal(min as nat) + " and "@ + decimal(max as nat),
{
    let mut m = String::new();
    push_str(&mut m, name);
    push_str(&mut m, " must be between ");
    push_decimal(&mut m, min);
    push_str(&mut m, " and ");
    push_decimal(&mut m, max);
    m
}

fn negative_message(name: &str) -> (m: String)
    ensures
        m@ == name@ + " must be a non-negative integer"@,
{
    let mut m = String::new();
    push_str(&mut m, name);
    push_str(&mut m, " must be a non-negative integer");
    m
}

/// A coerced integer flag as a `usize` within `min..=max`.
pub fn bounded_usize(value: i64, name: &str, min: usize, max: usize) -> (r: Result<usize, String>)
    ensures
        match r {
            Ok(v) => bounded(value as int, name@, min as int, max as int, usize::MAX as int)
                == Ok::<int, Seq<char>>(v as int),
            Err(m) => bounded(value as int, name@, min as int, max as int, usize::MAX as int)
                == Err::<int, Seq<char>>(m@),
        },
{
    if value < 0 || (value as u64) > (usize::MAX as u64) {
        return Err(negative_message(name));
    }
    let parsed = value as usize;
    if min <= parsed && parsed <= max {
        Ok(parsed)
    } else {
        Err(range_message(name, min as u64, max as u64))
    }
}

/// A coerced integer flag as a `u64` within `min..=max`.
pub fn bounded_u64(value: i64, name: &str, min: u64, max: u64) -> (r: Result<u64, String>)
    ensures
        match r {
            Ok(v) => bounded(value as int, name@, min as int, max as int, u64::MAX as int) == Ok::<
                int,
                Seq<char>,
            >(v as int),
            Err(m) => bounded(value as int, name@, min as int, max as int, u64::MAX as int)
                == Err::<int, Seq<char>>(m@),
        },
{
    if value < 0 {
        return Err(negative_message(name));
    }
    let parsed = value as u64;
    if min <= parsed && parsed <= max {
        Ok(parsed)
    } else {
        Err(range_message(name, min, max))
    }
}

/// What the flags parser reported, apart from the typed values.
#[derive(Debug)]
pub struct ParsedArgv {
    /// Options the contract does not declare, as typed.
    pub unknown_options: Vec<String>,
    /// Messages for values that did not fit their declared type.
    pub errors: Vec<String>,
    /// Operands that are neither a command nor a flag.
    pub extras: Vec<String>,
    /// The flags given on the command line, as (environment name, value).
    pub provided_flags: Vec<(String, String)>,
}

/// The diagnostic names of `options`, once each, in increasing order.
pub open spec fn is_name_listing(options: Seq<String>, names: Seq<Seq<char>>) -> bool {
    &&& crate::env_map::sorted_keys(names)
    &&& forall|k: Seq<char>| #[trigger] names.contains(k) <==> exists|i: int|
        0 <= i < options.len() && diagnostic_name((#[trigger] options[i])@) == k
}

/// The message for unknown options.
pub open spec fn unknown_options_message(names: Seq<Seq<char>>) -> Seq<char> {
    "unknown command-line option(s): "@ + joined(names, ", "@)
}

/// The message for invalid values.
pub open spec fn invalid_values_message(errors: Seq<String>) -> Seq<char> {
    "invalid command-line value(s): "@ + joined(errors.map_values(|e: String| e@), "; "@)
}

/// The message for stray operands: their count, never their text.
pub open spec fn extras_message(count: nat) -> Seq<char> {
    "unknown command or unexpected positional argument(s): "@ + decimal(count)
}

fn push_joined(msg: &mut String, parts: &Vec<String>, sep: &str)
    ensures
        final(msg)@ == old(msg)@ + joined(parts@.map_values(|p: String| p@), sep@),
{
    let ghost start = old(msg)@;
    let ghost views = parts@.map_values(|p: String| p@);
    let mut i: usize = 0;
    while i < parts.len()
        invariant
            i <= parts@.len(),
            views == parts@.map_values(|p: String| p@),
            msg@ == start + joined(views.take(i as int), sep@),
        decreases parts@.len() - i,
    {
        if i > 0 {
            push_str(msg, sep);
        }
        push_str(msg, parts[i].as_str());
        proof {
            assert(views.take(i + 1).drop_last() == views.take(i as int));
            assert(views[i as int] == parts@[i as int]@);
        }
        i = i + 1;
    }
    assert(views.take(parts@.len() as int) == views);
}

/// Fails closed on what the parser could not place: unknown options (named
/// without their values, once each, in order), invalid values, and stray
/// operands (counted, not echoed), in that order of precedence.
pub fn check_parsed(parsed: &ParsedArgv) -> (r: Result<(), String>)
    ensures
        parsed.unknown_options@.len() > 0 ==> (r matches Err(m) && exists|names: Seq<Seq<char>>|
            is_name_listing(parsed.unknown_options@, names) && m@ == unknown_options_message(
                names,
            )),
        parsed.unknown_options@.len() == 0 && parsed.errors@.len() > 0 ==> (r matches Err(m) && m@
            == invalid_values_message(parsed.errors@)),
        parsed.unknown_options@.len() == 0 && parsed.errors@.len() == 0 && parsed.extras@.len()
            > 0 ==> (r matches Err(m) && m@ == extras_message(parsed.extras@.len())),
        parsed.unknown_options@.len() == 0 && parsed.errors@.len() == 0 && parsed.extras@.len()
            == 0 ==> r is Ok,
{
    if parsed.unknown_options.len() > 0 {
        let opts = &parsed.unknown_options;
        let mut seen = EnvMap::new();
        let mut i: usize = 0;
        while i < opts.len()
            invariant
                i <= opts@.len(),
                forall|k: Seq<char>| #[trigger] seen@.contains_key(k) <==> exists|j: int|
                    0 <= j < i && diagnostic_name((#[trigger] opts@[j])@) == k,
            decreases opts@.len() - i,
        {
            let name = diagnostic_option_name(opts[i].as_str());
            let ghost nv = name@;
            seen.insert(name, String::new());
            proof {
                assert forall|k: Seq<char>| #[trigger] seen@.contains_key(k) implies exists|j: int|
                    0 <= j < i + 1 && diagnostic_name((#[trigger] opts@[j])@) == k by {
                    if k == nv {
                        assert(diagnostic_name(opts@[i as int]@) == k);
                    }
                }
            }
            i = i + 1;
        }
        let names = seen.keys();
        let mut msg = String::new();
        push_str(&mut msg, "unknown command-line option(s): ");
        push_joined(&mut msg, &names, ", ");
        proof {
            let ks = seen.key_seq();
            assert forall|k: Seq<char>| #[trigger] ks.contains(k) <==> exists|j: int|
                0 <= j < opts@.len() && diagnostic_name((#[trigger] opts@[j])@) == k by {
                assert(ks.contains(k) <==> seen@.contains_key(k));
            }
            assert(is_name_listing(opts@, ks));
            assert(names@.map_values(|p: String| p@) =~= ks);
            assert(msg@ == unknown_options_message(ks));
        }
        return Err(msg);
    }
    if parsed.errors.len() > 0 {
        let mut msg = String::new();
        push_str(&mut msg, "invalid command-line value(s): ");
        push_joined(&mut msg, &parsed.errors, "; ");
        return Err(msg);
    }
    if parsed.extras.len() > 0 {
        let mut msg = String::new();
        push_str(&mut msg, "unknown command or unexpected positional argument(s): ");
        push_decimal(&mut msg, parsed.extras.len() as u64);
        return Err(msg);
    }
    Ok(())
}

/// The environment name under which the parser reports the command; it is
/// parser output, never operator input.
pub open spec fn command_key() -> Seq<char> {
    "FLAGS2ENV_COMMAND"@
}

/// The raw configuration handed to typed coercion: the process environment
/// (later duplicates winning) without `FLAGS2ENV_COMMAND`, then the
/// argv-provided flags on top.
pub open spec fn layered(environment: Seq<(String, String)>, provided: Seq<(String, String)>) -> Map<
    Seq<char>,
    Seq<char>,
> {
    overlay(overlay(Map::empty(), environment).remove(command_key()), provided)
}

/// Layers the argv-provided flags over the process environment.
pub fn layer_config(environment: Vec<(String, String)>, provided: Vec<(String, String)>) -> (m: EnvMap)
    ensures
        m@ == layered(environment@, provided@),
{
    let mut raw = EnvMap::from_pairs(environment);
    raw.remove("FLAGS2ENV_COMMAND");
    get_env_map(raw, provided)
}

/// Precedence: a flag given on the command line beats the environment (the last
/// one given wins); a name no flag gives keeps its environment value; and the
/// command metadata can never come from the environment.
pub proof fn lemma_flag_precedence(
    environment: Seq<(String, String)>,
    provided: Seq<(String, String)>,
    k: Seq<char>,
)
    ensures
        forall|i: int|
            0 <= i < provided.len() && (#[trigger] provided[i]).0@ == k && (forall|j: int|
                i < j < provided.len() ==> (#[trigger] provided[j]).0@ != k) ==> layered(
                environment,
                provided,
            ).contains_key(k) && layered(environment, provided)[k] == provided[i].1@,
        (forall|i: int| 0 <= i < provided.len() ==> (#[trigger] provided[i]).0@ != k) ==> {
            &&& k == command_key() ==> !layered(environment, provided).contains_key(k)
            &&& k != command_key() ==> (layered(environment, provided).contains_key(k)
                == overlay(Map::empty(), environment).contains_key(k))
            &&& k != command_key() && overlay(Map::empty(), environment).contains_key(k)
                ==> layered(environment, provided)[k] == overlay(Map::empty(), environment)[k]
        },
{
    let base = overlay(Map::empty(), environment).remove(command_key());
    crate::env_map::lemma_overlay_lookup(base, provided, k);
}

/// What typed coercion produced from the layered configuration.
#[derive(Debug)]
pub struct TypedConfig {
    pub command: Option<String>,
    pub regions_file: String,
    pub samples: i64,
    pub health_path: String,
    pub timeout_ms: i64,
    pub warmup: i64,
    pub completion_shell: Option<String>,
    pub only_region: Option<String>,
    pub json: bool,
    pub node_url: Option<String>,
}

/// The command the configuration names: none (or an empty label) means `region`.
pub open spec fn chosen_command(label: Option<String>) -> Result<Command, Seq<char>> {
    match label {
        None => Ok(Command::Region),
        Some(l) => if l@.len() == 0 {
            Ok(Command::Region)
        } else {
            match command_for(l@) {
                Some(c) => Ok(c),
                None => Err(unknown_command_message(l@)),
            }
        },
    }
}

/// An absolute HTTP path without control characters.
pub open spec fn valid_health_path(p: Seq<char>) -> bool {
    has_prefix(p, "/"@) && forall|i: int| 0 <= i < p.len() ==> !is_control(#[trigger] p[i])
}

/// The shell for `completion`: the configured one, `bash` by default.
pub open spec fn shell_of(shell: Option<String>) -> Seq<char> {
    match shell {
        Some(s) => s@,
        None => "bash"@,
    }
}

/// The shells completion scripts exist for.
pub open spec fn supported_shell(s: Seq<char>) -> bool {
    s == "bash"@ || s == "zsh"@
}

/// The message for an empty `--regions`.
pub open spec fn empty_regions_message() -> Seq<char> {
    "--regions must not be empty"@
}

/// The message for a bad `--path`.
pub open spec fn bad_path_message() -> Seq<char> {
    "--path must be an absolute HTTP path without control characters"@
}

/// The message for an unsupported `--shell`.
pub open spec fn bad_shell_message() -> Seq<char> {
    "--shell must be one of: bash, zsh"@
}

/// The first check a typed configuration fails, if any, in the order the
/// checks run.
pub open spec fn build_failure(t: TypedConfig) -> Option<Seq<char>> {
    match chosen_command(t.command) {
        Err(m) => Some(m),
        Ok(c) => if trimmed(t.regions_file@).len() == 0 {
            Some(empty_regions_message())
        } else if let Err(m) = bounded(t.samples as int, "FIDUCIA_SAMPLES"@, 1, 100, usize::MAX as int) {
            Some(m)
        } else if !valid_health_path(t.health_path@) {
            Some(bad_path_message())
        } else if let Err(m) = bounded(t.timeout_ms as int, "FIDUCIA_TIMEOUT_MS"@, 1, 60000, u64::MAX as int) {
            Some(m)
        } else if let Err(m) = bounded(t.warmup as int, "FIDUCIA_WARMUP"@, 0, 100, usize::MAX as int) {
            Some(m)
        } else if c == Command::Completion && !supported_shell(shell_of(t.completion_shell)) {
            Some(bad_shell_message())
        } else {
            None
        },
    }
}

/// A typed configuration with every field in its documented range: a known
/// command (or none), a non-blank `--regions`, `--samples` from 1 to 100, an
/// absolute control-free `--path`, `--timeout` from 1 to 60000 ms, `--warmup`
/// from 0 to 100, and for `completion` the shell `bash` or `zsh`.
pub open spec fn config_in_range(t: TypedConfig) -> bool {
    &&& chosen_command(t.command) is Ok
    &&& trimmed(t.regions_file@).len() > 0
    &&& 1 <= t.samples <= 100
    &&& valid_health_path(t.health_path@)
    &&& 1 <= t.timeout_ms <= 60000
    &&& 0 <= t.warmup <= 100
    &&& chosen_command(t.command) == Ok::<Command, Seq<char>>(Command::Completion) ==> (shell_of(
        t.completion_shell,
    ) == "bash"@ || shell_of(t.completion_shell) == "zsh"@)
}

/// A configuration passes validation exactly when every field is in its
/// documented range; in particular every `--warmup` from 0 to 100, every
/// `--samples` from 1 to 100 and every `--timeout` from 1 to 60000 ms is
/// accepted when the rest is valid, and any value outside is refused.
pub proof fn lemma_build_accepts_exactly_in_range(t: TypedConfig)
    ensures
        build_failure(t) is None <==> config_in_range(t),
{
}

/// `--only` as configured; absent means empty.
pub open spec fn only_of(only: Option<String>) -> Seq<char> {
    match only {
        Some(s) => s@,
        None => Seq::empty(),
    }
}

fn valid_path(p: &str) -> (b: bool)
    ensures
        b == valid_health_path(p@),
{
    let v = chars_of(p);
    if !chars_start_with(&v, "/") {
        return false;
    }
    let mut i: usize = 0;
    while i < v.len()
        invariant
            i <= v@.len(),
            v@ == p@,
            forall|j: int| 0 <= j < i ==> !is_control(#[trigger] v@[j]),
        decreases v@.len() - i,
    {
        if is_control_char(v[i]) {
            return false;
        }
        i = i + 1;
    }
    true
}

fn message(text: &str) -> (m: String)
    ensures
        m@ == text@,
{
    let mut m = String::new();
    push_str(&mut m, text);
    m
}

/// Validates the typed configuration into [`CliArgs`]: the command, a
/// non-blank `--regions`, `--samples` in 1..=100, an absolute control-free
/// `--path`, `--timeout` in 1..=60000 ms, `--warmup` in 0..=100, and for
/// `completion` a supported `--shell`; the first failing check is reported.
pub fn build_cli_args(typed: TypedConfig, env: EnvMap) -> (r: Result<CliArgs, String>)
    ensures
        match r {
            Ok(a) => {
                &&& build_failure(typed) is None
                &&& chosen_command(typed.command) == Ok::<Command, Seq<char>>(a.command)
                &&& a.regions_file@ == typed.regions_file@
                &&& a.samples == typed.samples
                &&& a.health_path@ == typed.health_path@
                &&& a.timeout_ms == typed.timeout_ms
                &&& a.warmup == typed.warmup
                &&& a.only_region@ == only_of(typed.only_region)
                &&& a.json == typed.json
                &&& a.node_url == typed.node_url
                &&& a.shell@ == shell_of(typed.completion_shell)
                &&& a.env@ == env@
            },
            Err(m) => build_failure(typed) == Some(m@),
        },
        r is Ok <==> config_in_range(typed),
        r matches Ok(a) ==> a.warmup == typed.warmup && a.samples == typed.samples && a.timeout_ms
            == typed.timeout_ms,
{
    proof {
        lemma_build_accepts_exactly_in_range(typed);
    }
    proof {
        reveal_strlit("bash");
        reveal_strlit("zsh");
    }
    let command = match &typed.command {
        None => Command::Region,
        Some(label) => {
            let lc = chars_of(label.as_str());
            if lc.len() == 0 {
                Command::Region
            } else {
                match Command::parse(label.as_str()) {
                    Ok(c) => c,
                    Err(e) => {
                        return Err(e.message);
                    },
                }
            }
        },
    };
    let rf = trim(typed.regions_file.as_str());
    if chars_of(rf.as_str()).len() == 0 {
        return Err(message("--regions must not be empty"));
    }
    let samples = match bounded_usize(typed.samples, "FIDUCIA_SAMPLES", 1, 100) {
        Ok(v) => v,
        Err(m) => {
            return Err(m);
        },
    };
    if !valid_path(typed.health_path.as_str()) {
        return Err(message("--path must be an absolute HTTP path without control characters"));
    }
    let timeout_ms = match bounded_u64(typed.timeout_ms, "FIDUCIA_TIMEOUT_MS", 1, 60000) {
        Ok(v) => v,
        Err(m) => {
            return Err(m);
        },
    };
    let warmup = match bounded_usize(typed.warmup, "FIDUCIA_WARMUP", 0, 100) {
        Ok(v) => v,
        Err(m) => {
            return Err(m);
        },
    };
    let shell = match typed.completion_shell {
        Some(s) => s,
        None => message("bash"),
    };
    if command == Command::Completion && !(str_equal(shell.as_str(), "bash") || str_equal(
        shell.as_str(),
        "zsh",
    )) {
        return Err(message("--shell must be one of: bash, zsh"));
    }
    let only_region = match typed.only_region {
        Some(s) => s,
        None => String::new(),
    };
    Ok(
        CliArgs {
            command,
            regions_file: typed.regions_file,
            samples,
            health_path: typed.health_path,
            timeout_ms,
            warmup,
            only_region,
            json: typed.json,
            node_url: typed.node_url,
            shell,
            env,
        },
    )
}

} // verus!

verus! {

/// The file name of the flags contract.
pub open spec fn contract_file() -> Seq<char> {
    ".cli-flags.toml"@
}

/// The contract path that `FIDUCIA_FLAGS_CONFIG` names, when it is set and not empty.
pub fn explicit_config_path(value: Option<String>) -> (r: Option<String>)
    ensures
        match value {
            Some(v) => if v@.len() > 0 {
                r == Some(v)
            } else {
                r is None
            },
            None => r is None,
        },
{
    match value {
        Some(v) => {
            if chars_of(v.as_str()).len() > 0 {
                Some(v)
            } else {
                None
            }
        },
        None => None,
    }
}

/// Where the contract is searched for when no path is set, in order: the
/// working directory, next to the executable, and the executable's
/// `../share/fiducia-cli` (which is what makes an installed binary work from any
/// directory).
pub open spec fn contract_candidates(cwd: Option<Seq<char>>, exe_dir: Option<Seq<char>>) -> Seq<
    Seq<char>,
> {
    let from_cwd = match cwd {
        Some(c) => seq![crate::commands::docs::joined_path(c, contract_file())],
        None => Seq::empty(),
    };
    let from_exe = match exe_dir {
        Some(e) => seq![
            crate::commands::docs::joined_path(e, contract_file()),
            crate::commands::docs::joined_path(e, "../share/fiducia-cli/.cli-flags.toml"@),
        ],
        None => Seq::empty(),
    };
    from_cwd + from_exe
}

/// The search order of the contract: with a working directory, its
/// `.cli-flags.toml` comes first; with an executable directory `e`, the last two
/// candidates are `e/.cli-flags.toml` and then
/// `e/../share/fiducia-cli/.cli-flags.toml`; nothing else is searched.
pub proof fn lemma_contract_search_order(cwd: Option<Seq<char>>, exe_dir: Option<Seq<char>>)
    ensures
        ({
            let c = contract_candidates(cwd, exe_dir);
            &&& c.len() == (if cwd is Some { 1int } else { 0 }) + (if exe_dir is Some { 2int } else { 0 })
            &&& cwd matches Some(d) ==> c[0] == crate::commands::docs::joined_path(d, ".cli-flags.toml"@)
            &&& exe_dir matches Some(e) ==> {
                &&& c[c.len() - 2] == crate::commands::docs::joined_path(e, ".cli-flags.toml"@)
                &&& c[c.len() - 1] == crate::commands::docs::joined_path(
                    e,
                    "../share/fiducia-cli/.cli-flags.toml"@,
                )
            }
        }),
{
}

fn join_path(root: &str, rel: &str) -> (p: String)
    ensures
        p@ == crate::commands::docs::joined_path(root@, rel@),
{
    let r = chars_of(root);
    let mut p = String::new();
    push_str(&mut p, root);
    if r.len() > 0 && r[r.len() - 1] != '/' {
        push_str(&mut p, "/");
    }
    push_str(&mut p, rel);
    p
}

/// The candidate contract paths, in search order.
pub fn config_candidates(cwd: Option<&str>, exe_dir: Option<&str>) -> (c: Vec<String>)
    ensures
        c@.map_values(|s: String| s@) == contract_candidates(
            match cwd {
                Some(x) => Some(x@),
                None => None,
            },
            match exe_dir {
                Some(x) => Some(x@),
                None => None,
            },
        ),
        exe_dir matches Some(e) ==> c@.len() >= 2 && c@[c@.len() - 1]@
            == crate::commands::docs::joined_path(e@, "../share/fiducia-cli/.cli-flags.toml"@)
            && c@[c@.len() - 2]@ == crate::commands::docs::joined_path(e@, ".cli-flags.toml"@),
        c@.len() == (if cwd is Some { 1int } else { 0 }) + (if exe_dir is Some { 2int } else { 0 }),
{
    let mut c: Vec<String> = Vec::new();
    if let Some(dir) = cwd {
        c.push(join_path(dir, ".cli-flags.toml"));
    }
    if let Some(dir) = exe_dir {
        c.push(join_path(dir, ".cli-flags.toml"));
        c.push(join_path(dir, "../share/fiducia-cli/.cli-flags.toml"));
    }
    let ghost cw = match cwd {
        Some(x) => Some(x@),
        None => None,
    };
    let ghost ex = match exe_dir {
        Some(x) => Some(x@),
        None => None,
    };
    assert(c@.map_values(|s: String| s@) =~= contract_candidates(cw, ex));
    proof {
        lemma_contract_search_order(cw, ex);
    }
    c
}

} // verus!
