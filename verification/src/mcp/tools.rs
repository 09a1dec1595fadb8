//! The tool calls: reading a call's arguments, the write gate, and the plan
//! of the admin-API request that each tool makes.
use crate::api::limits::text_eq;
use crate::mcp::catalogue::{lemma_tool_names_distinct, tool_entry, tool_names_differ, TOOL_COUNT};
use crate::mcp::protocol::{result_texts, ToolCallResult};
use crate::http::HttpResponse;
use crate::text::{decimal, push_bytes, push_decimal, str_bytes, text_from_bytes, trim, trim_bytes};
use vstd::prelude::*;
use vstd::string::StringSliceAdditionalSpecFns;
use vstd::string::StringExecFns;
use vstd::string::StrSliceExecFns;

verus! {

/// An argument value as the planner reads it: a string, or anything else
/// (object, array, number, boolean, null), which is only ever passed on.
pub enum ArgValue {
    Str(String),
    Other,
}

/// The arguments of a tool call: the members of the `arguments` object, in
/// order (none when it is absent, null or not an object).
pub struct ToolArgs {
    pub entries: Vec<(String, ArgValue)>,
}

/// Index of the first entry at or after `i` whose key is `key`.
pub open spec fn arg_index(entries: Seq<(String, ArgValue)>, key: Seq<char>, i: int) -> Option<int>
    decreases entries.len() - i,
{
    if i < 0 || i >= entries.len() {
        None
    } else if entries[i].0@ == key {
        Some(i)
    } else {
        arg_index(entries, key, i + 1)
    }
}

/// The value of argument `key`, if present.
pub open spec fn arg_at(entries: Seq<(String, ArgValue)>, key: Seq<char>) -> Option<ArgValue> {
    match arg_index(entries, key, 0) {
        Some(i) => Some(entries[i].1),
        None => None,
    }
}

/// Argument `key` as a string, or the message for its absence.
pub open spec fn str_field_spec(entries: Seq<(String, ArgValue)>, key: Seq<char>) -> Result<Seq<char>, Seq<char>> {
    match arg_at(entries, key) {
        Some(ArgValue::Str(s)) => Ok(s@),
        _ => Err("missing or non-string `"@ + key + "`"@),
    }
}

proof fn lemma_arg_index_bounds(entries: Seq<(String, ArgValue)>, key: Seq<char>, i: int)
    requires
        0 <= i,
    ensures
        arg_index(entries, key, i) matches Some(j) ==> i <= j < entries.len() && entries[j].0@ == key,
    decreases entries.len() - i,
{
    if i < entries.len() && entries[i].0@ != key {
        lemma_arg_index_bounds(entries, key, i + 1);
    }
}

impl ToolArgs {
    /// Position of argument `key`.
    pub fn find(&self, key: &str) -> (r: Option<usize>)
        ensures
            r.is_some() == arg_index(self.entries@, key@, 0).is_some(),
            r matches Some(i) ==> arg_index(self.entries@, key@, 0) == Some(i as int) && i < self.entries@.len(),
    {
        let mut i: usize = 0;
        while i < self.entries.len()
            invariant
                i <= self.entries@.len(),
                arg_index(self.entries@, key@, i as int) == arg_index(self.entries@, key@, 0),
            decreases self.entries@.len() - i,
        {
            if text_eq(self.entries[i].0.as_str(), key) {
                return Some(i);
            }
            i = i + 1;
        }
        None
    }

    /// Whether argument `key` is present.
    pub fn has(&self, key: &str) -> (r: bool)
        ensures
            r == arg_at(self.entries@, key@).is_some(),
    {
        self.find(key).is_some()
    }
}

/// Argument `key` as a string; fails with ``missing or non-string `key` ``.
pub fn str_field(args: &ToolArgs, key: &str) -> (r: Result<String, String>)
    ensures
        match str_field_spec(args.entries@, key@) {
            Ok(s) => r matches Ok(x) && x@ == s,
            Err(m) => r matches Err(x) && x@ == m,
        },
{
    let missing = String::from_str("missing or non-string `").concat(key).concat("`");
    match args.find(key) {
        Some(i) => {
            match &args.entries[i].1 {
                ArgValue::Str(s) => Ok(s.clone()),
                ArgValue::Other => Err(missing),
            }
        },
        None => Err(missing),
    }
}

/// `s` without its trailing dots (`trim_end_matches('.')`).
pub open spec fn trim_dots(s: Seq<char>) -> Seq<char>
    decreases s.len(),
{
    if s.len() > 0 && s.last() == '.' {
        trim_dots(s.drop_last())
    } else {
        s
    }
}

/// A character allowed in a zone name on the URL path: ASCII letters and
/// digits, `.`, `-` and `_`.
pub open spec fn zone_char(c: char) -> bool {
    ('a' <= c <= 'z') || ('A' <= c <= 'Z') || ('0' <= c <= '9') || c == '.' || c == '-' || c == '_'
}

/// `/api/v1/zones/<name><suffix>` for argument `name`, its trailing dots
/// removed; refused when that leaves it empty or it holds another
/// character than `zone_char` allows.
pub open spec fn zone_path_spec(entries: Seq<(String, ArgValue)>, suffix: Seq<char>) -> Result<Seq<char>, Seq<char>> {
    match str_field_spec(entries, "name"@) {
        Err(m) => Err(m),
        Ok(raw) => {
            let n = trim_dots(raw);
            if n.len() == 0 {
                Err("zone name is empty"@)
            } else if !(forall|i: int| 0 <= i < n.len() ==> zone_char(#[trigger] n[i])) {
                Err("zone name contains invalid characters: "@ + n)
            } else {
                Ok("/api/v1/zones/"@ + n + suffix)
            }
        },
    }
}

proof fn lemma_trim_dots_prefix(s: Seq<char>, n: int)
    requires
        0 <= n <= s.len(),
        forall|i: int| n <= i < s.len() ==> s[i] == '.',
        n == 0 || s[n - 1] != '.',
    ensures
        trim_dots(s) == s.take(n),
    decreases s.len(),
{
    if s.len() > n {
        assert(s.drop_last().take(n) =~= s.take(n));
        lemma_trim_dots_prefix(s.drop_last(), n);
    } else {
        assert(s.take(n) =~= s);
    }
}

fn zone_char_exec(c: char) -> (r: bool)
    ensures
        r == zone_char(c),
{
    ('a' <= c && c <= 'z') || ('A' <= c && c <= 'Z') || ('0' <= c && c <= '9') || c == '.' || c == '-' || c
        == '_'
}

/// The API path of the zone named by argument `name`, with `suffix`.
pub fn zone_path(args: &ToolArgs, suffix: &str) -> (r: Result<String, String>)
    ensures
        match zone_path_spec(args.entries@, suffix@) {
            Ok(p) => r matches Ok(x) && x@ == p,
            Err(m) => r matches Err(x) && x@ == m,
        },
{
    let name = match str_field(args, "name") {
        Ok(n) => n,
        Err(e) => return Err(e),
    };
    let s = name.as_str();
    let len = s.unicode_len();
    let mut n: usize = len;
    while n > 0 && s.get_char(n - 1) == '.'
        invariant
            n <= len,
            len == s@.len(),
            forall|i: int| n <= i < len ==> s@[i] == '.',
        decreases n,
    {
        n = n - 1;
    }
    proof {
        lemma_trim_dots_prefix(s@, n as int);
    }
    let t = s.substring_char(0, n);
    assert(t@ == trim_dots(name@));
    if n == 0 {
        return Err(String::from_str("zone name is empty"));
    }
    let mut i: usize = 0;
    while i < n
        invariant
            i <= n,
            n == t@.len(),
            t@ == trim_dots(name@),
            str_field_spec(args.entries@, "name"@) == Ok::<Seq<char>, Seq<char>>(name@),
            forall|j: int| 0 <= j < i ==> zone_char(#[trigger] t@[j]),
        decreases n - i,
    {
        let c = t.get_char(i);
        if !zone_char_exec(c) {
            assert(!zone_char(trim_dots(name@)[i as int]));
            assert(!(forall|j: int| 0 <= j < t@.len() ==> zone_char(#[trigger] t@[j])));
            return Err(String::from_str("zone name contains invalid characters: ").concat(t));
        }
        i = i + 1;
    }
    Ok(String::from_str("/api/v1/zones/").concat(t).concat(suffix))
}

/// The refusal of a mutating tool while writes are off.
pub open spec fn write_refusal() -> Seq<char> {
    "this tool mutates DNS state; set NEBULA_MCP_ALLOW_WRITES=1 to enable it"@
}

/// The write gate: passes only when writes are allowed.
pub fn guard_write(allow_writes: bool) -> (r: Result<(), String>)
    ensures
        allow_writes ==> r is Ok,
        !allow_writes ==> (r matches Err(m) && m@ == write_refusal()),
{
    if allow_writes {
        Ok(())
    } else {
        Err(String::from_str("this tool mutates DNS state; set NEBULA_MCP_ALLOW_WRITES=1 to enable it"))
    }
}

/// The JSON body of a request to the admin API.
pub enum Body {
    /// `null`.
    Null,
    /// The value of the named argument, as given.
    Arg(&'static str),
    /// An object whose one member is the named argument, as given.
    WrappedArg(&'static str),
    /// An object whose one member, under the given key, is the given string.
    StrField(&'static str, String),
    /// The call's arguments as given (`{}` when there were none).
    AllArgs,
}

/// What a tool call does.
pub enum ToolPlan {
    /// GET `/livez` and `/readyz` and report both statuses.
    HealthCheck,
    /// GET `/metrics` and pass on its text.
    Metrics,
    /// GET the path and pass on its JSON, pretty-printed.
    GetJson(String),
    /// POST the body to the path and pass on the JSON answer.
    PostJson(String, Body),
    /// PUT the body to the path and pass on the JSON answer.
    PutJson(String, Body),
    /// Answer at once, without a request.
    Reply(ToolCallResult),
}

/// `Body` with its texts as character sequences.
pub enum BodyV {
    Null,
    Arg(Seq<char>),
    WrappedArg(Seq<char>),
    StrField(Seq<char>, Seq<char>),
    AllArgs,
}

/// `ToolPlan` with its texts as character sequences; a reply by its texts
/// and error flag.
pub enum PlanV {
    HealthCheck,
    Metrics,
    GetJson(Seq<char>),
    PostJson(Seq<char>, BodyV),
    PutJson(Seq<char>, BodyV),
    Reply(Seq<Seq<char>>, bool),
}

impl View for Body {
    type V = BodyV;

    open spec fn view(&self) -> BodyV {
        match self {
            Body::Null => BodyV::Null,
            Body::Arg(k) => BodyV::Arg(k@),
            Body::WrappedArg(k) => BodyV::WrappedArg(k@),
            Body::StrField(k, v) => BodyV::StrField(k@, v@),
            Body::AllArgs => BodyV::AllArgs,
        }
    }
}

impl View for ToolPlan {
    type V = PlanV;

    open spec fn view(&self) -> PlanV {
        match self {
            ToolPlan::HealthCheck => PlanV::HealthCheck,
            ToolPlan::Metrics => PlanV::Metrics,
            ToolPlan::GetJson(p) => PlanV::GetJson(p@),
            ToolPlan::PostJson(p, b) => PlanV::PostJson(p@, b@),
            ToolPlan::PutJson(p, b) => PlanV::PutJson(p@, b@),
            ToolPlan::Reply(r) => PlanV::Reply(result_texts(*r), r.is_error),
        }
    }
}

/// A tool that changes DNS state, refused while writes are off.
pub open spec fn is_write_tool(name: Seq<char>) -> bool {
    ||| name == "create_zone"@
    ||| name == "replace_zone"@
    ||| name == "add_records"@
    ||| name == "rollback_zone"@
    ||| name == "force_notify"@
    ||| name == "trigger_dnssec_rollover"@
    ||| name == "deploy"@
}

/// `r` with its success mapped to a GET of that path.
pub open spec fn get_path(r: Result<Seq<char>, Seq<char>>) -> Result<PlanV, Seq<char>> {
    match r {
        Ok(p) => Ok(PlanV::GetJson(p)),
        Err(m) => Err(m),
    }
}

/// The plan of a read-only tool (`None` for another name).
pub open spec fn read_plan(name: Seq<char>, args: Seq<(String, ArgValue)>) -> Option<Result<PlanV, Seq<char>>> {
    if name == "health_check"@ {
        Some(Ok(PlanV::HealthCheck))
    } else if name == "get_version"@ {
        Some(Ok(PlanV::GetJson("/api/v1/version"@)))
    } else if name == "get_metrics"@ {
        Some(Ok(PlanV::Metrics))
    } else if name == "list_zones"@ {
        Some(Ok(PlanV::GetJson("/api/v1/zones"@)))
    } else if name == "get_zone"@ {
        Some(get_path(zone_path_spec(args, ""@)))
    } else if name == "get_zone_history"@ {
        Some(get_path(zone_path_spec(args, "/history"@)))
    } else if name == "get_propagation_status"@ {
        Some(get_path(zone_path_spec(args, "/propagation"@)))
    } else if name == "list_secondaries"@ {
        Some(Ok(PlanV::GetJson("/api/v1/secondaries"@)))
    } else if name == "get_dnssec_status"@ {
        Some(get_path(zone_path_spec(args, "/dnssec"@)))
    } else if name == "get_deploy_status"@ {
        Some(
            match str_field_spec(args, "deploy_id"@) {
                Ok(id) => Ok(PlanV::GetJson("/api/v1/deploys/"@ + id)),
                Err(m) => Err(m),
            },
        )
    } else if name == "list_tsig_keys"@ {
        Some(Ok(PlanV::GetJson("/api/v1/keys/tsig"@)))
    } else {
        None
    }
}

/// The plan of a mutating tool once the write gate has passed.
pub open spec fn write_plan(name: Seq<char>, args: Seq<(String, ArgValue)>) -> Result<PlanV, Seq<char>> {
    if name == "create_zone"@ {
        if arg_at(args, "zone"@).is_none() {
            Err("missing `zone`"@)
        } else {
            Ok(PlanV::PostJson("/api/v1/zones"@, BodyV::Arg("zone"@)))
        }
    } else if name == "replace_zone"@ {
        match zone_path_spec(args, ""@) {
            Err(m) => Err(m),
            Ok(p) => if arg_at(args, "zone"@).is_none() {
                Err("missing `zone`"@)
            } else {
                Ok(PlanV::PutJson(p, BodyV::Arg("zone"@)))
            },
        }
    } else if name == "add_records"@ {
        match zone_path_spec(args, "/records"@) {
            Err(m) => Err(m),
            Ok(p) => if arg_at(args, "records"@).is_none() {
                Err("missing `records`"@)
            } else {
                Ok(PlanV::PostJson(p, BodyV::WrappedArg("records"@)))
            },
        }
    } else if name == "rollback_zone"@ {
        match zone_path_spec(args, "/rollback"@) {
            Err(m) => Err(m),
            Ok(p) => match str_field_spec(args, "version"@) {
                Err(m) => Err(m),
                Ok(v) => Ok(PlanV::PostJson(p, BodyV::StrField("version"@, v))),
            },
        }
    } else if name == "force_notify"@ {
        match zone_path_spec(args, "/notify"@) {
            Err(m) => Err(m),
            Ok(p) => Ok(PlanV::PostJson(p, BodyV::Null)),
        }
    } else if name == "trigger_dnssec_rollover"@ {
        match zone_path_spec(args, "/dnssec/rollover"@) {
            Err(m) => Err(m),
            Ok(p) => match str_field_spec(args, "key_type"@) {
                Err(m) => Err(m),
                Ok(k) => Ok(PlanV::PostJson(p, BodyV::StrField("key_type"@, k))),
            },
        }
    } else {
        Ok(PlanV::PostJson("/api/v1/deploy"@, BodyV::AllArgs))
    }
}

/// What a call of tool `name` with `args` does, or the tool-level error it
/// fails with. Mutating tools are refused before anything else while
/// writes are off; an unknown name is answered with an error result.
pub open spec fn plan_spec(name: Seq<char>, args: Seq<(String, ArgValue)>, allow_writes: bool) -> Result<PlanV, Seq<char>> {
    match read_plan(name, args) {
        Some(r) => r,
        None => if is_write_tool(name) {
            if !allow_writes {
                Err(write_refusal())
            } else {
                write_plan(name, args)
            }
        } else {
            Ok(PlanV::Reply(seq!["unknown tool: "@ + name], true))
        },
    }
}

/// `r` with its text views.
pub open spec fn plan_result_view(r: Result<ToolPlan, String>) -> Result<PlanV, Seq<char>> {
    match r {
        Ok(p) => Ok(p@),
        Err(m) => Err(m@),
    }
}

fn get_of(r: Result<String, String>) -> (p: Result<ToolPlan, String>)
    ensures
        plan_result_view(p) == get_path(match r {
            Ok(x) => Ok(x@),
            Err(m) => Err(m@),
        }),
{
    match r {
        Ok(path) => Ok(ToolPlan::GetJson(path)),
        Err(m) => Err(m),
    }
}

fn read_plan_exec(name: &str, args: &ToolArgs) -> (r: Option<Result<ToolPlan, String>>)
    ensures
        match read_plan(name@, args.entries@) {
            Some(x) => r matches Some(y) && plan_result_view(y) == x,
            None => r.is_none(),
        },
{
    if text_eq(name, "health_check") {
        Some(Ok(ToolPlan::HealthCheck))
    } else if text_eq(name, "get_version") {
        Some(Ok(ToolPlan::GetJson(String::from_str("/api/v1/version"))))
    } else if text_eq(name, "get_metrics") {
        Some(Ok(ToolPlan::Metrics))
    } else if text_eq(name, "list_zones") {
        Some(Ok(ToolPlan::GetJson(String::from_str("/api/v1/zones"))))
    } else if text_eq(name, "get_zone") {
        Some(get_of(zone_path(args, "")))
    } else if text_eq(name, "get_zone_history") {
        Some(get_of(zone_path(args, "/history")))
    } else if text_eq(name, "get_propagation_status") {
        Some(get_of(zone_path(args, "/propagation")))
    } else if text_eq(name, "list_secondaries") {
        Some(Ok(ToolPlan::GetJson(String::from_str("/api/v1/secondaries"))))
    } else if text_eq(name, "get_dnssec_status") {
        Some(get_of(zone_path(args, "/dnssec")))
    } else if text_eq(name, "get_deploy_status") {
        match str_field(args, "deploy_id") {
            Ok(id) => Some(Ok(ToolPlan::GetJson(String::from_str("/api/v1/deploys/").concat(id.as_str())))),
            Err(m) => Some(Err(m)),
        }
    } else if text_eq(name, "list_tsig_keys") {
        Some(Ok(ToolPlan::GetJson(String::from_str("/api/v1/keys/tsig"))))
    } else {
        None
    }
}

fn write_plan_exec(name: &str, args: &ToolArgs) -> (r: Result<ToolPlan, String>)
    requires
        is_write_tool(name@),
    ensures
        plan_result_view(r) == write_plan(name@, args.entries@),
{
    if text_eq(name, "create_zone") {
        if !args.has("zone") {
            return Err(String::from_str("missing `zone`"));
        }
        Ok(ToolPlan::PostJson(String::from_str("/api/v1/zones"), Body::Arg("zone")))
    } else if text_eq(name, "replace_zone") {
        let path = match zone_path(args, "") {
            Ok(p) => p,
            Err(m) => return Err(m),
        };
        if !args.has("zone") {
            return Err(String::from_str("missing `zone`"));
        }
        Ok(ToolPlan::PutJson(path, Body::Arg("zone")))
    } else if text_eq(name, "add_records") {
        let path = match zone_path(args, "/records") {
            Ok(p) => p,
            Err(m) => return Err(m),
        };
        if !args.has("records") {
            return Err(String::from_str("missing `records`"));
        }
        Ok(ToolPlan::PostJson(path, Body::WrappedArg("records")))
    } else if text_eq(name, "rollback_zone") {
        let path = match zone_path(args, "/rollback") {
            Ok(p) => p,
            Err(m) => return Err(m),
        };
        match str_field(args, "version") {
            Ok(v) => Ok(ToolPlan::PostJson(path, Body::StrField("version", v))),
            Err(m) => Err(m),
        }
    } else if text_eq(name, "force_notify") {
        match zone_path(args, "/notify") {
            Ok(p) => Ok(ToolPlan::PostJson(p, Body::Null)),
            Err(m) => Err(m),
        }
    } else if text_eq(name, "trigger_dnssec_rollover") {
        let path = match zone_path(args, "/dnssec/rollover") {
            Ok(p) => p,
            Err(m) => return Err(m),
        };
        match str_field(args, "key_type") {
            Ok(k) => Ok(ToolPlan::PostJson(path, Body::StrField("key_type", k))),
            Err(m) => Err(m),
        }
    } else {
        Ok(ToolPlan::PostJson(String::from_str("/api/v1/deploy"), Body::AllArgs))
    }
}

fn is_write_tool_exec(name: &str) -> (r: bool)
    ensures
        r == is_write_tool(name@),
{
    text_eq(name, "create_zone") || text_eq(name, "replace_zone") || text_eq(name, "add_records") || text_eq(
        name,
        "rollback_zone",
    ) || text_eq(name, "force_notify") || text_eq(name, "trigger_dnssec_rollover") || text_eq(name, "deploy")
}

/// Plan a call of tool `name` with `args`: the request it makes, or the
/// tool-level error it fails with (which the caller reports as an error
/// result).
pub fn plan(name: &str, args: &ToolArgs, allow_writes: bool) -> (r: Result<ToolPlan, String>)
    ensures
        plan_result_view(r) == plan_spec(name@, args.entries@, allow_writes),
{
    match read_plan_exec(name, args) {
        Some(r) => r,
        None => {
            if is_write_tool_exec(name) {
                match guard_write(allow_writes) {
                    Err(m) => Err(m),
                    Ok(()) => write_plan_exec(name, args),
                }
            } else {
                let r = ToolCallResult::error(String::from_str("unknown tool: ").concat(name));
                Ok(ToolPlan::Reply(r))
            }
        },
    }
}

/// With writes off, every mutating tool is refused with the same message,
/// whatever its arguments.
pub proof fn lemma_write_tools_refused_without_gate(name: Seq<char>, args: Seq<(String, ArgValue)>)
    requires
        is_write_tool(name),
    ensures
        plan_spec(name, args, false) == Err::<PlanV, Seq<char>>(write_refusal()),
{
    reveal_strlit("create_zone");
    reveal_strlit("replace_zone");
    reveal_strlit("add_records");
    reveal_strlit("rollback_zone");
    reveal_strlit("force_notify");
    reveal_strlit("trigger_dnssec_rollover");
    reveal_strlit("deploy");
    reveal_strlit("health_check");
    reveal_strlit("get_version");
    reveal_strlit("get_metrics");
    reveal_strlit("list_zones");
    reveal_strlit("get_zone");
    reveal_strlit("get_zone_history");
    reveal_strlit("get_propagation_status");
    reveal_strlit("list_secondaries");
    reveal_strlit("get_dnssec_status");
    reveal_strlit("get_deploy_status");
    reveal_strlit("list_tsig_keys");
    // Write tools start with one of c, r, a, f, t, d; read tools with h, g
    // or l, so no write tool has a read plan.
    let c = name[0];
    assert(c == 'c' || c == 'r' || c == 'a' || c == 'f' || c == 't' || c == 'd');
    assert(read_plan(name, args).is_none());
}

/// With writes off, no tool call plans a POST or a PUT: the admin API is
/// only ever read.
pub proof fn lemma_no_mutation_without_gate(name: Seq<char>, args: Seq<(String, ArgValue)>)
    ensures
        plan_spec(name, args, false) matches Ok(p) ==> !(p is PostJson) && !(p is PutJson),
{
}

/// The write gate changes nothing for the other tools.
pub proof fn lemma_gate_only_affects_writes(name: Seq<char>, args: Seq<(String, ArgValue)>)
    requires
        !is_write_tool(name),
    ensures
        plan_spec(name, args, true) == plan_spec(name, args, false),
{
}

/// Every tool of the catalogue is one the planner knows: calling it never
/// answers "unknown tool". The last seven entries are exactly the mutating
/// tools.
pub proof fn lemma_catalogue_tools_are_known(i: int, args: Seq<(String, ArgValue)>, allow_writes: bool)
    requires
        0 <= i < TOOL_COUNT,
    ensures
        !(plan_spec(tool_entry(i).0, args, allow_writes) matches Ok(PlanV::Reply(_, _))),
        is_write_tool(tool_entry(i).0) <==> 11 <= i,
{
    lemma_tool_names_distinct();
    assert(tool_names_differ());
}

/// One line of the health report: `<label>: <status> (<trimmed body>)`.
pub open spec fn probe_line(label: Seq<u8>, r: HttpResponse) -> Seq<u8> {
    label + ": ".spec_bytes() + decimal(r.status as nat) + " (".spec_bytes() + trim(
        vstd::utf8::encode_utf8(r.body@),
    ) + ")".spec_bytes()
}

proof fn lemma_probe_line_utf8(label: Seq<u8>, r: HttpResponse)
    requires
        vstd::utf8::valid_utf8(label),
    ensures
        vstd::utf8::valid_utf8(probe_line(label, r)),
{
    broadcast use vstd::utf8::encode_utf8_valid_utf8;
    crate::text::lemma_decimal_ascii(r.status as nat);
    crate::text::lemma_ascii_utf8(decimal(r.status as nat));
    crate::text::lemma_trim_utf8(vstd::utf8::encode_utf8(r.body@));
    let a = label + ": ".spec_bytes();
    vstd::utf8::valid_utf8_concat(label, ": ".spec_bytes());
    vstd::utf8::valid_utf8_concat(a, decimal(r.status as nat));
    let b = a + decimal(r.status as nat);
    vstd::utf8::valid_utf8_concat(b, " (".spec_bytes());
    let c = b + " (".spec_bytes();
    vstd::utf8::valid_utf8_concat(c, trim(vstd::utf8::encode_utf8(r.body@)));
    let d = c + trim(vstd::utf8::encode_utf8(r.body@));
    vstd::utf8::valid_utf8_concat(d, ")".spec_bytes());
}

fn push_probe_line(out: &mut Vec<u8>, label: &str, r: &HttpResponse)
    ensures
        final(out)@ == old(out)@ + probe_line(label.spec_bytes(), *r),
{
    push_bytes(out, str_bytes(label));
    push_bytes(out, str_bytes(": "));
    push_decimal(out, r.status as u64);
    push_bytes(out, str_bytes(" ("));
    let t = trim_bytes(str_bytes(r.body.as_str()));
    push_bytes(out, t.as_slice());
    push_bytes(out, str_bytes(")"));
    proof {
        assert(final(out)@ =~= old(out)@ + probe_line(label.spec_bytes(), *r));
    }
}

/// The `health_check` result: the status and trimmed body of `/livez` and
/// of `/readyz`, one line each.
pub fn health_report(livez: &HttpResponse, readyz: &HttpResponse) -> (r: ToolCallResult)
    ensures
        !r.is_error,
        vstd::utf8::valid_utf8(
            probe_line("livez".spec_bytes(), *livez) + "\n".spec_bytes() + probe_line("readyz".spec_bytes(), *readyz),
        ),
        result_texts(r) == seq![
            vstd::utf8::decode_utf8(
                probe_line("livez".spec_bytes(), *livez) + "\n".spec_bytes() + probe_line(
                    "readyz".spec_bytes(),
                    *readyz,
                ),
            ),
        ],
{
    let mut out: Vec<u8> = Vec::new();
    push_probe_line(&mut out, "livez", livez);
    push_bytes(&mut out, str_bytes("\n"));
    push_probe_line(&mut out, "readyz", readyz);
    proof {
        assert(out@ =~= probe_line("livez".spec_bytes(), *livez) + "\n".spec_bytes() + probe_line(
            "readyz".spec_bytes(),
            *readyz,
        ));
        broadcast use vstd::utf8::encode_utf8_valid_utf8;
        lemma_probe_line_utf8("livez".spec_bytes(), *livez);
        lemma_probe_line_utf8("readyz".spec_bytes(), *readyz);
        let l = probe_line("livez".spec_bytes(), *livez);
        vstd::utf8::valid_utf8_concat(l, "\n".spec_bytes());
        vstd::utf8::valid_utf8_concat(l + "\n".spec_bytes(), probe_line("readyz".spec_bytes(), *readyz));
    }
    ToolCallResult::text(text_from_bytes(out.as_slice()))
}

/// The `get_metrics` result: the body of a successful `/metrics` answer,
/// or the failure of `expect_success`.
pub fn metrics_result(resp: HttpResponse) -> (r: Result<ToolCallResult, String>)
    ensures
        crate::http::is_success(resp.status) ==> (r matches Ok(t) && !t.is_error && result_texts(t) == seq![
            resp.body@,
        ]),
        !crate::http::is_success(resp.status) ==> (r matches Err(m) && m@ == crate::http::http_error_text(
            resp.status,
            resp.body@,
        )),
{
    match resp.expect_success() {
        Err(m) => Err(m),
        Ok(()) => Ok(ToolCallResult::text(resp.body)),
    }
}

/// A tool-level failure becomes an error result carrying its message.
pub fn call_outcome(outcome: Result<ToolCallResult, String>) -> (r: ToolCallResult)
    ensures
        match outcome {
            Ok(t) => r == t,
            Err(m) => r.is_error && result_texts(r) == seq![m@],
        },
{
    match outcome {
        Ok(t) => t,
        Err(m) => ToolCallResult::error(m),
    }
}

} // verus!
