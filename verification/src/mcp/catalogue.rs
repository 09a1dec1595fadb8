//! The tool catalogue advertised by `tools/list`: each tool's name, its
//! description, and the JSON Schema of its arguments.
use vstd::prelude::*;

verus! {

/// The JSON type of one argument property.
pub enum PropKind {
    Str,
    /// A string restricted to the listed values.
    StrEnum(Vec<&'static str>),
    Object,
    /// An array of objects.
    ObjectArray,
    /// A boolean with its default.
    Boolean(bool),
    /// An integer with its minimum.
    Integer(i64),
}

/// One property of an argument schema.
pub struct Property {
    pub name: &'static str,
    pub kind: PropKind,
    pub description: Option<&'static str>,
}

/// An argument schema: an object with these properties, of which the
/// `required` ones must be present, and no others.
pub struct InputSchema {
    pub properties: Vec<Property>,
    pub required: Vec<&'static str>,
}

/// A tool as `tools/list` describes it.
pub struct ToolDescriptor {
    pub name: &'static str,
    pub description: &'static str,
    pub input_schema: InputSchema,
}

/// `PropKind` with its texts as character sequences.
pub enum PropKindV {
    Str,
    StrEnum(Seq<Seq<char>>),
    Object,
    ObjectArray,
    Boolean(bool),
    Integer(i64),
}

/// A property: name, kind, description.
pub type PropV = (Seq<char>, PropKindV, Option<Seq<char>>);

/// A schema: properties and required names.
pub type SchemaV = (Seq<PropV>, Seq<Seq<char>>);

/// A tool: name, description, schema.
pub type ToolV = (Seq<char>, Seq<char>, SchemaV);

/// The texts of a list of static strings.
pub open spec fn texts(v: Seq<&'static str>) -> Seq<Seq<char>> {
    v.map_values(|s: &'static str| s@)
}

/// An optional text.
pub open spec fn opt_text(o: Option<&'static str>) -> Option<Seq<char>> {
    match o {
        Some(s) => Some(s@),
        None => None,
    }
}

impl View for PropKind {
    type V = PropKindV;

    open spec fn view(&self) -> PropKindV {
        match self {
            PropKind::Str => PropKindV::Str,
            PropKind::StrEnum(v) => PropKindV::StrEnum(texts(v@)),
            PropKind::Object => PropKindV::Object,
            PropKind::ObjectArray => PropKindV::ObjectArray,
            PropKind::Boolean(d) => PropKindV::Boolean(*d),
            PropKind::Integer(m) => PropKindV::Integer(*m),
        }
    }
}

impl View for Property {
    type V = PropV;

    open spec fn view(&self) -> PropV {
        (self.name@, self.kind@, opt_text(self.description))
    }
}

impl View for InputSchema {
    type V = SchemaV;

    open spec fn view(&self) -> SchemaV {
        (self.properties@.map_values(|p: Property| p@), texts(self.required@))
    }
}

impl View for ToolDescriptor {
    type V = ToolV;

    open spec fn view(&self) -> ToolV {
        (self.name@, self.description@, self.input_schema@)
    }
}

/// Number of tools in the catalogue.
pub const TOOL_COUNT: usize = 18;

/// Tool `i` of the catalogue.
pub open spec fn tool_entry(i: int) -> ToolV {
    if i == 0 {
        ("health_check"@, "Probe /livez and /readyz on the NebulaDNS admin API. Returns the HTTP status for each."@, (Seq::<PropV>::empty(), Seq::<Seq<char>>::empty()))
    } else if i == 1 {
        ("get_version"@, "Fetch NebulaDNS server version, commit, rustc, and target from /api/v1/version."@, (Seq::<PropV>::empty(), Seq::<Seq<char>>::empty()))
    } else if i == 2 {
        ("get_metrics"@, "Fetch Prometheus text exposition from /metrics. Useful for inspecting per-zone query counts, rcodes, and transfer state."@, (Seq::<PropV>::empty(), Seq::<Seq<char>>::empty()))
    } else if i == 3 {
        ("list_zones"@, "[M5] List all zones the caller is authorised to see."@, (Seq::<PropV>::empty(), Seq::<Seq<char>>::empty()))
    } else if i == 4 {
        ("get_zone"@, "[M5] Fetch a single zone's metadata and current record set."@, (seq![("name"@, PropKindV::Str, Some("Zone apex (FQDN). Trailing dot optional."@))], seq!["name"@]))
    } else if i == 5 {
        ("get_zone_history"@, "[M5] Return the version history and diffs for a zone."@, (seq![("name"@, PropKindV::Str, Some("Zone apex (FQDN). Trailing dot optional."@))], seq!["name"@]))
    } else if i == 6 {
        ("get_propagation_status"@, "[M5] Return per-secondary propagation state (last SOA serial observed, lag, FORMERR count)."@, (seq![("name"@, PropKindV::Str, Some("Zone apex (FQDN). Trailing dot optional."@))], seq!["name"@]))
    } else if i == 7 {
        ("list_secondaries"@, "[M5] List all configured secondary servers and their health."@, (Seq::<PropV>::empty(), Seq::<Seq<char>>::empty()))
    } else if i == 8 {
        ("get_dnssec_status"@, "[M5] Return DNSSEC key state, next rollover, and NSEC params for a zone."@, (seq![("name"@, PropKindV::Str, Some("Zone apex (FQDN). Trailing dot optional."@))], seq!["name"@]))
    } else if i == 9 {
        ("get_deploy_status"@, "[M5] Return status for a deploy id returned by `deploy`."@, (seq![("deploy_id"@, PropKindV::Str, Some("Deploy identifier."@))], seq!["deploy_id"@]))
    } else if i == 10 {
        ("list_tsig_keys"@, "[M5] List TSIG keys (names and algorithms only; secret material is never returned)."@, (Seq::<PropV>::empty(), Seq::<Seq<char>>::empty()))
    } else if i == 11 {
        ("create_zone"@, "[M5][write] Create a new zone. Requires NEBULA_MCP_ALLOW_WRITES=1."@, (seq![("zone"@, PropKindV::Object, Some("Zone document (SOA + initial records)."@))], seq!["zone"@]))
    } else if i == 12 {
        ("replace_zone"@, "[M5][write] Replace a zone's full record set. Requires NEBULA_MCP_ALLOW_WRITES=1."@, (seq![("name"@, PropKindV::Str, Some("Zone apex (FQDN, trailing dot optional)."@)), ("zone"@, PropKindV::Object, Some("New zone document."@))], seq!["name"@, "zone"@]))
    } else if i == 13 {
        ("add_records"@, "[M5][write] Batch add or modify records in a zone. Requires NEBULA_MCP_ALLOW_WRITES=1."@, (seq![("name"@, PropKindV::Str, None::<Seq<char>>), ("records"@, PropKindV::ObjectArray, None::<Seq<char>>)], seq!["name"@, "records"@]))
    } else if i == 14 {
        ("rollback_zone"@, "[M5][write] Roll a zone back to a prior version. Requires NEBULA_MCP_ALLOW_WRITES=1."@, (seq![("name"@, PropKindV::Str, None::<Seq<char>>), ("version"@, PropKindV::Str, Some("Target version identifier from get_zone_history."@))], seq!["name"@, "version"@]))
    } else if i == 15 {
        ("force_notify"@, "[M5][write] Force-send DNS NOTIFY to all secondaries for a zone. Requires NEBULA_MCP_ALLOW_WRITES=1."@, (seq![("name"@, PropKindV::Str, Some("Zone apex (FQDN). Trailing dot optional."@))], seq!["name"@]))
    } else if i == 16 {
        ("trigger_dnssec_rollover"@, "[M5][write] Trigger a DNSSEC key rollover. Requires NEBULA_MCP_ALLOW_WRITES=1."@, (seq![("name"@, PropKindV::Str, None::<Seq<char>>), ("key_type"@, PropKindV::StrEnum(seq!["ksk"@, "zsk"@]), None::<Seq<char>>)], seq!["name"@, "key_type"@]))
    } else {
        ("deploy"@, "[M5][write] Trigger a deploy. Returns a deploy id usable with get_deploy_status. Requires NEBULA_MCP_ALLOW_WRITES=1."@, (seq![("wait_for_propagation"@, PropKindV::Boolean(false), None::<Seq<char>>), ("timeout_seconds"@, PropKindV::Integer(1), None::<Seq<char>>)], Seq::<Seq<char>>::empty()))
    }
}

/// The catalogue, in the order `tools/list` gives it.
pub open spec fn catalogue_spec() -> Seq<ToolV> {
    Seq::new(TOOL_COUNT as nat, |i: int| tool_entry(i))
}

fn prop(name: &'static str, kind: PropKind, description: Option<&'static str>) -> (r: Property)
    ensures
        r@ == (name@, kind@, opt_text(description)),
{
    Property { name, kind, description }
}

fn schema(properties: Vec<Property>, required: Vec<&'static str>) -> (r: InputSchema)
    ensures
        r@ == (properties@.map_values(|p: Property| p@), texts(required@)),
{
    InputSchema { properties, required }
}

fn empty_schema() -> (r: InputSchema)
    ensures
        r@ == (Seq::<PropV>::empty(), Seq::<Seq<char>>::empty()),
{
    let mut ps: Vec<Property> = Vec::new();
    let mut rq: Vec<&'static str> = Vec::new();
    proof {
        assert(ps@.map_values(|p: Property| p@) =~= Seq::<PropV>::empty());
        assert(texts(rq@) =~= Seq::<Seq<char>>::empty());
    }
    schema(ps, rq)
}

fn zone_name_schema() -> (r: InputSchema)
    ensures
        r@ == (seq![("name"@, PropKindV::Str, Some("Zone apex (FQDN). Trailing dot optional."@))], seq!["name"@]),
{
    let mut ps: Vec<Property> = Vec::new();
    ps.push(prop("name", PropKind::Str, Some("Zone apex (FQDN). Trailing dot optional.")));
    let mut rq: Vec<&'static str> = Vec::new();
    rq.push("name");
    proof {
        assert(ps@.map_values(|p: Property| p@) =~= seq![("name"@, PropKindV::Str, Some("Zone apex (FQDN). Trailing dot optional."@))]);
        assert(texts(rq@) =~= seq!["name"@]);
    }
    schema(ps, rq)
}

fn get_deploy_status_schema() -> (r: InputSchema)
    ensures
        r@ == (seq![("deploy_id"@, PropKindV::Str, Some("Deploy identifier."@))], seq!["deploy_id"@]),
{
    let mut ps: Vec<Property> = Vec::new();
    ps.push(prop("deploy_id", PropKind::Str, Some("Deploy identifier.")));
    let mut rq: Vec<&'static str> = Vec::new();
    rq.push("deploy_id");
    proof {
        assert(ps@.map_values(|p: Property| p@) =~= seq![("deploy_id"@, PropKindV::Str, Some("Deploy identifier."@))]);
        assert(texts(rq@) =~= seq!["deploy_id"@]);
    }
    schema(ps, rq)
}

fn create_zone_schema() -> (r: InputSchema)
    ensures
        r@ == (seq![("zone"@, PropKindV::Object, Some("Zone document (SOA + initial records)."@))], seq!["zone"@]),
{
    let mut ps: Vec<Property> = Vec::new();
    ps.push(prop("zone", PropKind::Object, Some("Zone document (SOA + initial records).")));
    let mut rq: Vec<&'static str> = Vec::new();
    rq.push("zone");
    proof {
        assert(ps@.map_values(|p: Property| p@) =~= seq![("zone"@, PropKindV::Object, Some("Zone document (SOA + initial records)."@))]);
        assert(texts(rq@) =~= seq!["zone"@]);
    }
    schema(ps, rq)
}

fn replace_zone_schema() -> (r: InputSchema)
    ensures
        r@ == (seq![("name"@, PropKindV::Str, Some("Zone apex (FQDN, trailing dot optional)."@)), ("zone"@, PropKindV::Object, Some("New zone document."@))], seq!["name"@, "zone"@]),
{
    let mut ps: Vec<Property> = Vec::new();
    ps.push(prop("name", PropKind::Str, Some("Zone apex (FQDN, trailing dot optional).")));
    ps.push(prop("zone", PropKind::Object, Some("New zone document.")));
    let mut rq: Vec<&'static str> = Vec::new();
    rq.push("name");
    rq.push("zone");
    proof {
        assert(ps@.map_values(|p: Property| p@) =~= seq![("name"@, PropKindV::Str, Some("Zone apex (FQDN, trailing dot optional)."@)), ("zone"@, PropKindV::Object, Some("New zone document."@))]);
        assert(texts(rq@) =~= seq!["name"@, "zone"@]);
    }
    schema(ps, rq)
}

fn add_records_schema() -> (r: InputSchema)
    ensures
        r@ == (seq![("name"@, PropKindV::Str, None::<Seq<char>>), ("records"@, PropKindV::ObjectArray, None::<Seq<char>>)], seq!["name"@, "records"@]),
{
    let mut ps: Vec<Property> = Vec::new();
    ps.push(prop("name", PropKind::Str, None));
    ps.push(prop("records", PropKind::ObjectArray, None));
    let mut rq: Vec<&'static str> = Vec::new();
    rq.push("name");
    rq.push("records");
    proof {
        assert(ps@.map_values(|p: Property| p@) =~= seq![("name"@, PropKindV::Str, None::<Seq<char>>), ("records"@, PropKindV::ObjectArray, None::<Seq<char>>)]);
        assert(texts(rq@) =~= seq!["name"@, "records"@]);
    }
    schema(ps, rq)
}

fn rollback_zone_schema() -> (r: InputSchema)
    ensures
        r@ == (seq![("name"@, PropKindV::Str, None::<Seq<char>>), ("version"@, PropKindV::Str, Some("Target version identifier from get_zone_history."@))], seq!["name"@, "version"@]),
{
    let mut ps: Vec<Property> = Vec::new();
    ps.push(prop("name", PropKind::Str, None));
    ps.push(prop("version", PropKind::Str, Some("Target version identifier from get_zone_history.")));
    let mut rq: Vec<&'static str> = Vec::new();
    rq.push("name");
    rq.push("version");
    proof {
        assert(ps@.map_values(|p: Property| p@) =~= seq![("name"@, PropKindV::Str, None::<Seq<char>>), ("version"@, PropKindV::Str, Some("Target version identifier from get_zone_history."@))]);
        assert(texts(rq@) =~= seq!["name"@, "version"@]);
    }
    schema(ps, rq)
}

fn trigger_dnssec_rollover_schema() -> (r: InputSchema)
    ensures
        r@ == (seq![("name"@, PropKindV::Str, None::<Seq<char>>), ("key_type"@, PropKindV::StrEnum(seq!["ksk"@, "zsk"@]), None::<Seq<char>>)], seq!["name"@, "key_type"@]),
{
    let mut ps: Vec<Property> = Vec::new();
    ps.push(prop("name", PropKind::Str, None));
    let mut vals: Vec<&'static str> = Vec::new();
    vals.push("ksk");
    vals.push("zsk");
    proof { assert(texts(vals@) =~= seq!["ksk"@, "zsk"@]); }
    ps.push(prop("key_type", PropKind::StrEnum(vals), None));
    let mut rq: Vec<&'static str> = Vec::new();
    rq.push("name");
    rq.push("key_type");
    proof {
        assert(ps@.map_values(|p: Property| p@) =~= seq![("name"@, PropKindV::Str, None::<Seq<char>>), ("key_type"@, PropKindV::StrEnum(seq!["ksk"@, "zsk"@]), None::<Seq<char>>)]);
        assert(texts(rq@) =~= seq!["name"@, "key_type"@]);
    }
    schema(ps, rq)
}

fn deploy_schema() -> (r: InputSchema)
    ensures
        r@ == (seq![("wait_for_propagation"@, PropKindV::Boolean(false), None::<Seq<char>>), ("timeout_seconds"@, PropKindV::Integer(1), None::<Seq<char>>)], Seq::<Seq<char>>::empty()),
{
    let mut ps: Vec<Property> = Vec::new();
    ps.push(prop("wait_for_propagation", PropKind::Boolean(false), None));
    ps.push(prop("timeout_seconds", PropKind::Integer(1), None));
    let mut rq: Vec<&'static str> = Vec::new();
    proof {
        assert(ps@.map_values(|p: Property| p@) =~= seq![("wait_for_propagation"@, PropKindV::Boolean(false), None::<Seq<char>>), ("timeout_seconds"@, PropKindV::Integer(1), None::<Seq<char>>)]);
        assert(texts(rq@) =~= Seq::<Seq<char>>::empty());
    }
    schema(ps, rq)
}

/// Tool `i` of the catalogue.
fn entry(i: usize) -> (r: ToolDescriptor)
    requires
        i < TOOL_COUNT,
    ensures
        r@ == tool_entry(i as int),
{
    if i == 0 {
        ToolDescriptor { name: "health_check", description: "Probe /livez and /readyz on the NebulaDNS admin API. Returns the HTTP status for each.", input_schema: empty_schema() }
    } else if i == 1 {
        ToolDescriptor { name: "get_version", description: "Fetch NebulaDNS server version, commit, rustc, and target from /api/v1/version.", input_schema: empty_schema() }
    } else if i == 2 {
        ToolDescriptor { name: "get_metrics", description: "Fetch Prometheus text exposition from /metrics. Useful for inspecting per-zone query counts, rcodes, and transfer state.", input_schema: empty_schema() }
    } else if i == 3 {
        ToolDescriptor { name: "list_zones", description: "[M5] List all zones the caller is authorised to see.", input_schema: empty_schema() }
    } else if i == 4 {
        ToolDescriptor { name: "get_zone", description: "[M5] Fetch a single zone's metadata and current record set.", input_schema: zone_name_schema() }
    } else if i == 5 {
        ToolDescriptor { name: "get_zone_history", description: "[M5] Return the version history and diffs for a zone.", input_schema: zone_name_schema() }
    } else if i == 6 {
        ToolDescriptor { name: "get_propagation_status", description: "[M5] Return per-secondary propagation state (last SOA serial observed, lag, FORMERR count).", input_schema: zone_name_schema() }
    } else if i == 7 {
        ToolDescriptor { name: "list_secondaries", description: "[M5] List all configured secondary servers and their health.", input_schema: empty_schema() }
    } else if i == 8 {
        ToolDescriptor { name: "get_dnssec_status", description: "[M5] Return DNSSEC key state, next rollover, and NSEC params for a zone.", input_schema: zone_name_schema() }
    } else if i == 9 {
        ToolDescriptor { name: "get_deploy_status", description: "[M5] Return status for a deploy id returned by `deploy`.", input_schema: get_deploy_status_schema() }
    } else if i == 10 {
        ToolDescriptor { name: "list_tsig_keys", description: "[M5] List TSIG keys (names and algorithms only; secret material is never returned).", input_schema: empty_schema() }
    } else if i == 11 {
        ToolDescriptor { name: "create_zone", description: "[M5][write] Create a new zone. Requires NEBULA_MCP_ALLOW_WRITES=1.", input_schema: create_zone_schema() }
    } else if i == 12 {
        ToolDescriptor { name: "replace_zone", description: "[M5][write] Replace a zone's full record set. Requires NEBULA_MCP_ALLOW_WRITES=1.", input_schema: replace_zone_schema() }
    } else if i == 13 {
        ToolDescriptor { name: "add_records", description: "[M5][write] Batch add or modify records in a zone. Requires NEBULA_MCP_ALLOW_WRITES=1.", input_schema: add_records_schema() }
    } else if i == 14 {
        ToolDescriptor { name: "rollback_zone", description: "[M5][write] Roll a zone back to a prior version. Requires NEBULA_MCP_ALLOW_WRITES=1.", input_schema: rollback_zone_schema() }
    } else if i == 15 {
        ToolDescriptor { name: "force_notify", description: "[M5][write] Force-send DNS NOTIFY to all secondaries for a zone. Requires NEBULA_MCP_ALLOW_WRITES=1.", input_schema: zone_name_schema() }
    } else if i == 16 {
        ToolDescriptor { name: "trigger_dnssec_rollover", description: "[M5][write] Trigger a DNSSEC key rollover. Requires NEBULA_MCP_ALLOW_WRITES=1.", input_schema: trigger_dnssec_rollover_schema() }
    } else {
        ToolDescriptor { name: "deploy", description: "[M5][write] Trigger a deploy. Returns a deploy id usable with get_deploy_status. Requires NEBULA_MCP_ALLOW_WRITES=1.", input_schema: deploy_schema() }
    }
}

/// The static tool catalogue advertised via `tools/list`.
pub fn catalogue() -> (r: Vec<ToolDescriptor>)
    ensures
        r@.map_values(|t: ToolDescriptor| t@) == catalogue_spec(),
{
    let mut v: Vec<ToolDescriptor> = Vec::new();
    let mut i: usize = 0;
    while i < TOOL_COUNT
        invariant
            i <= TOOL_COUNT,
            v@.len() == i,
            forall|j: int| 0 <= j < i ==> (#[trigger] v@[j])@ == tool_entry(j),
        decreases TOOL_COUNT - i,
    {
        v.push(entry(i));
        i = i + 1;
    }
    proof {
        assert(v@.map_values(|t: ToolDescriptor| t@) =~= catalogue_spec());
    }
    v
}

/// Every two tool names, as literals, differ.
pub open spec fn tool_names_differ() -> bool {
    &&& "health_check"@ != "get_version"@
    &&& "health_check"@ != "get_metrics"@
    &&& "health_check"@ != "list_zones"@
    &&& "health_check"@ != "get_zone"@
    &&& "health_check"@ != "get_zone_history"@
    &&& "health_check"@ != "get_propagation_status"@
    &&& "health_check"@ != "list_secondaries"@
    &&& "health_check"@ != "get_dnssec_status"@
    &&& "health_check"@ != "get_deploy_status"@
    &&& "health_check"@ != "list_tsig_keys"@
    &&& "health_check"@ != "create_zone"@
    &&& "health_check"@ != "replace_zone"@
    &&& "health_check"@ != "add_records"@
    &&& "health_check"@ != "rollback_zone"@
    &&& "health_check"@ != "force_notify"@
    &&& "health_check"@ != "trigger_dnssec_rollover"@
    &&& "health_check"@ != "deploy"@
    &&& "get_version"@ != "get_metrics"@
    &&& "get_version"@ != "list_zones"@
    &&& "get_version"@ != "get_zone"@
    &&& "get_version"@ != "get_zone_history"@
    &&& "get_version"@ != "get_propagation_status"@
    &&& "get_version"@ != "list_secondaries"@
    &&& "get_version"@ != "get_dnssec_status"@
    &&& "get_version"@ != "get_deploy_status"@
    &&& "get_version"@ != "list_tsig_keys"@
    &&& "get_version"@ != "create_zone"@
    &&& "get_version"@ != "replace_zone"@
    &&& "get_version"@ != "add_records"@
    &&& "get_version"@ != "rollback_zone"@
    &&& "get_version"@ != "force_notify"@
    &&& "get_version"@ != "trigger_dnssec_rollover"@
    &&& "get_version"@ != "deploy"@
    &&& "get_metrics"@ != "list_zones"@
    &&& "get_metrics"@ != "get_zone"@
    &&& "get_metrics"@ != "get_zone_history"@
    &&& "get_metrics"@ != "get_propagation_status"@
    &&& "get_metrics"@ != "list_secondaries"@
    &&& "get_metrics"@ != "get_dnssec_status"@
    &&& "get_metrics"@ != "get_deploy_status"@
    &&& "get_metrics"@ != "list_tsig_keys"@
    &&& "get_metrics"@ != "create_zone"@
    &&& "get_metrics"@ != "replace_zone"@
    &&& "get_metrics"@ != "add_records"@
    &&& "get_metrics"@ != "rollback_zone"@
    &&& "get_metrics"@ != "force_notify"@
    &&& "get_metrics"@ != "trigger_dnssec_rollover"@
    &&& "get_metrics"@ != "deploy"@
    &&& "list_zones"@ != "get_zone"@
    &&& "list_zones"@ != "get_zone_history"@
    &&& "list_zones"@ != "get_propagation_status"@
    &&& "list_zones"@ != "list_secondaries"@
    &&& "list_zones"@ != "get_dnssec_status"@
    &&& "list_zones"@ != "get_deploy_status"@
    &&& "list_zones"@ != "list_tsig_keys"@
    &&& "list_zones"@ != "create_zone"@
    &&& "list_zones"@ != "replace_zone"@
    &&& "list_zones"@ != "add_records"@
    &&& "list_zones"@ != "rollback_zone"@
    &&& "list_zones"@ != "force_notify"@
    &&& "list_zones"@ != "trigger_dnssec_rollover"@
    &&& "list_zones"@ != "deploy"@
    &&& "get_zone"@ != "get_zone_history"@
    &&& "get_zone"@ != "get_propagation_status"@
    &&& "get_zone"@ != "list_secondaries"@
    &&& "get_zone"@ != "get_dnssec_status"@
    &&& "get_zone"@ != "get_deploy_status"@
    &&& "get_zone"@ != "list_tsig_keys"@
    &&& "get_zone"@ != "create_zone"@
    &&& "get_zone"@ != "replace_zone"@
    &&& "get_zone"@ != "add_records"@
    &&& "get_zone"@ != "rollback_zone"@
    &&& "get_zone"@ != "force_notify"@
    &&& "get_zone"@ != "trigger_dnssec_rollover"@
    &&& "get_zone"@ != "deploy"@
    &&& "get_zone_history"@ != "get_propagation_status"@
    &&& "get_zone_history"@ != "list_secondaries"@
    &&& "get_zone_history"@ != "get_dnssec_status"@
    &&& "get_zone_history"@ != "get_deploy_status"@
    &&& "get_zone_history"@ != "list_tsig_keys"@
    &&& "get_zone_history"@ != "create_zone"@
    &&& "get_zone_history"@ != "replace_zone"@
    &&& "get_zone_history"@ != "add_records"@
    &&& "get_zone_history"@ != "rollback_zone"@
    &&& "get_zone_history"@ != "force_notify"@
    &&& "get_zone_history"@ != "trigger_dnssec_rollover"@
    &&& "get_zone_history"@ != "deploy"@
    &&& "get_propagation_status"@ != "list_secondaries"@
    &&& "get_propagation_status"@ != "get_dnssec_status"@
    &&& "get_propagation_status"@ != "get_deploy_status"@
    &&& "get_propagation_status"@ != "list_tsig_keys"@
    &&& "get_propagation_status"@ != "create_zone"@
    &&& "get_propagation_status"@ != "replace_zone"@
    &&& "get_propagation_status"@ != "add_records"@
    &&& "get_propagation_status"@ != "rollback_zone"@
    &&& "get_propagation_status"@ != "force_notify"@
    &&& "get_propagation_status"@ != "trigger_dnssec_rollover"@
    &&& "get_propagation_status"@ != "deploy"@
    &&& "list_secondaries"@ != "get_dnssec_status"@
    &&& "list_secondaries"@ != "get_deploy_status"@
    &&& "list_secondaries"@ != "list_tsig_keys"@
    &&& "list_secondaries"@ != "create_zone"@
    &&& "list_secondaries"@ != "replace_zone"@
    &&& "list_secondaries"@ != "add_records"@
    &&& "list_secondaries"@ != "rollback_zone"@
    &&& "list_secondaries"@ != "force_notify"@
    &&& "list_secondaries"@ != "trigger_dnssec_rollover"@
    &&& "list_secondaries"@ != "deploy"@
    &&& "get_dnssec_status"@ != "get_deploy_status"@
    &&& "get_dnssec_status"@ != "list_tsig_keys"@
    &&& "get_dnssec_status"@ != "create_zone"@
    &&& "get_dnssec_status"@ != "replace_zone"@
    &&& "get_dnssec_status"@ != "add_records"@
    &&& "get_dnssec_status"@ != "rollback_zone"@
    &&& "get_dnssec_status"@ != "force_notify"@
    &&& "get_dnssec_status"@ != "trigger_dnssec_rollover"@
    &&& "get_dnssec_status"@ != "deploy"@
    &&& "get_deploy_status"@ != "list_tsig_keys"@
    &&& "get_deploy_status"@ != "create_zone"@
    &&& "get_deploy_status"@ != "replace_zone"@
    &&& "get_deploy_status"@ != "add_records"@
    &&& "get_deploy_status"@ != "rollback_zone"@
    &&& "get_deploy_status"@ != "force_notify"@
    &&& "get_deploy_status"@ != "trigger_dnssec_rollover"@
    &&& "get_deploy_status"@ != "deploy"@
    &&& "list_tsig_keys"@ != "create_zone"@
    &&& "list_tsig_keys"@ != "replace_zone"@
    &&& "list_tsig_keys"@ != "add_records"@
    &&& "list_tsig_keys"@ != "rollback_zone"@
    &&& "list_tsig_keys"@ != "force_notify"@
    &&& "list_tsig_keys"@ != "trigger_dnssec_rollover"@
    &&& "list_tsig_keys"@ != "deploy"@
    &&& "create_zone"@ != "replace_zone"@
    &&& "create_zone"@ != "add_records"@
    &&& "create_zone"@ != "rollback_zone"@
    &&& "create_zone"@ != "force_notify"@
    &&& "create_zone"@ != "trigger_dnssec_rollover"@
    &&& "create_zone"@ != "deploy"@
    &&& "replace_zone"@ != "add_records"@
    &&& "replace_zone"@ != "rollback_zone"@
    &&& "replace_zone"@ != "force_notify"@
    &&& "replace_zone"@ != "trigger_dnssec_rollover"@
    &&& "replace_zone"@ != "deploy"@
    &&& "add_records"@ != "rollback_zone"@
    &&& "add_records"@ != "force_notify"@
    &&& "add_records"@ != "trigger_dnssec_rollover"@
    &&& "add_records"@ != "deploy"@
    &&& "rollback_zone"@ != "force_notify"@
    &&& "rollback_zone"@ != "trigger_dnssec_rollover"@
    &&& "rollback_zone"@ != "deploy"@
    &&& "force_notify"@ != "trigger_dnssec_rollover"@
    &&& "force_notify"@ != "deploy"@
    &&& "trigger_dnssec_rollover"@ != "deploy"@
}

/// The tool names are pairwise distinct.
pub proof fn lemma_tool_names_distinct()
    ensures
        tool_names_differ(),
        forall|i: int, j: int| 0 <= i < j < TOOL_COUNT ==> (#[trigger] tool_entry(i)).0 != (#[trigger] tool_entry(j)).0,
{
    reveal_strlit("health_check");
    reveal_strlit("get_version");
    reveal_strlit("get_metrics");
    reveal_strlit("list_zones");
    reveal_strlit("get_zone");
    reveal_strlit("get_zone_history");
    reveal_strlit("get_propagation_status");
    reveal_strlit("list_secondaries");
    reveal_strlit("get_dnssec_status");
    reveal_strlit("get_deploy_status");
    reveal_strlit("list_tsig_keys");
    reveal_strlit("create_zone");
    reveal_strlit("replace_zone");
    reveal_strlit("add_records");
    reveal_strlit("rollback_zone");
    reveal_strlit("force_notify");
    reveal_strlit("trigger_dnssec_rollover");
    reveal_strlit("deploy");
    assert("health_check"@.len() != "get_version"@.len());
    assert("health_check"@.len() != "get_metrics"@.len());
    assert("health_check"@.len() != "list_zones"@.len());
    assert("health_check"@.len() != "get_zone"@.len());
    assert("health_check"@.len() != "get_zone_history"@.len());
    assert("health_check"@.len() != "get_propagation_status"@.len());
    assert("health_check"@.len() != "list_secondaries"@.len());
    assert("health_check"@.len() != "get_dnssec_status"@.len());
    assert("health_check"@.len() != "get_deploy_status"@.len());
    assert("health_check"@.len() != "list_tsig_keys"@.len());
    assert("health_check"@.len() != "create_zone"@.len());
    assert("health_check"@[0] != "replace_zone"@[0]);
    assert("health_check"@.len() != "add_records"@.len());
    assert("health_check"@.len() != "rollback_zone"@.len());
    assert("health_check"@[0] != "force_notify"@[0]);
    assert("health_check"@.len() != "trigger_dnssec_rollover"@.len());
    assert("health_check"@.len() != "deploy"@.len());
    assert("get_version"@[4] != "get_metrics"@[4]);
    assert("get_version"@.len() != "list_zones"@.len());
    assert("get_version"@.len() != "get_zone"@.len());
    assert("get_version"@.len() != "get_zone_history"@.len());
    assert("get_version"@.len() != "get_propagation_status"@.len());
    assert("get_version"@.len() != "list_secondaries"@.len());
    assert("get_version"@.len() != "get_dnssec_status"@.len());
    assert("get_version"@.len() != "get_deploy_status"@.len());
    assert("get_version"@.len() != "list_tsig_keys"@.len());
    assert("get_version"@[0] != "create_zone"@[0]);
    assert("get_version"@.len() != "replace_zone"@.len());
    assert("get_version"@[0] != "add_records"@[0]);
    assert("get_version"@.len() != "rollback_zone"@.len());
    assert("get_version"@.len() != "force_notify"@.len());
    assert("get_version"@.len() != "trigger_dnssec_rollover"@.len());
    assert("get_version"@.len() != "deploy"@.len());
    assert("get_metrics"@.len() != "list_zones"@.len());
    assert("get_metrics"@.len() != "get_zone"@.len());
    assert("get_metrics"@.len() != "get_zone_history"@.len());
    assert("get_metrics"@.len() != "get_propagation_status"@.len());
    assert("get_metrics"@.len() != "list_secondaries"@.len());
    assert("get_metrics"@.len() != "get_dnssec_status"@.len());
    assert("get_metrics"@.len() != "get_deploy_status"@.len());
    assert("get_metrics"@.len() != "list_tsig_keys"@.len());
    assert("get_metrics"@[0] != "create_zone"@[0]);
    assert("get_metrics"@.len() != "replace_zone"@.len());
    assert("get_metrics"@[0] != "add_records"@[0]);
    assert("get_metrics"@.len() != "rollback_zone"@.len());
    assert("get_metrics"@.len() != "force_notify"@.len());
    assert("get_metrics"@.len() != "trigger_dnssec_rollover"@.len());
    assert("get_metrics"@.len() != "deploy"@.len());
    assert("list_zones"@.len() != "get_zone"@.len());
    assert("list_zones"@.len() != "get_zone_history"@.len());
    assert("list_zones"@.len() != "get_propagation_status"@.len());
    assert("list_zones"@.len() != "list_secondaries"@.len());
    assert("list_zones"@.len() != "get_dnssec_status"@.len());
    assert("list_zones"@.len() != "get_deploy_status"@.len());
    assert("list_zones"@.len() != "list_tsig_keys"@.len());
    assert("list_zones"@.len() != "create_zone"@.len());
    assert("list_zones"@.len() != "replace_zone"@.len());
    assert("list_zones"@.len() != "add_records"@.len());
    assert("list_zones"@.len() != "rollback_zone"@.len());
    assert("list_zones"@.len() != "force_notify"@.len());
    assert("list_zones"@.len() != "trigger_dnssec_rollover"@.len());
    assert("list_zones"@.len() != "deploy"@.len());
    assert("get_zone"@.len() != "get_zone_history"@.len());
    assert("get_zone"@.len() != "get_propagation_status"@.len());
    assert("get_zone"@.len() != "list_secondaries"@.len());
    assert("get_zone"@.len() != "get_dnssec_status"@.len());
    assert("get_zone"@.len() != "get_deploy_status"@.len());
    assert("get_zone"@.len() != "list_tsig_keys"@.len());
    assert("get_zone"@.len() != "create_zone"@.len());
    assert("get_zone"@.len() != "replace_zone"@.len());
    assert("get_zone"@.len() != "add_records"@.len());
    assert("get_zone"@.len() != "rollback_zone"@.len());
    assert("get_zone"@.len() != "force_notify"@.len());
    assert("get_zone"@.len() != "trigger_dnssec_rollover"@.len());
    assert("get_zone"@.len() != "deploy"@.len());
    assert("get_zone_history"@.len() != "get_propagation_status"@.len());
    assert("get_zone_history"@[0] != "list_secondaries"@[0]);
    assert("get_zone_history"@.len() != "get_dnssec_status"@.len());
    assert("get_zone_history"@.len() != "get_deploy_status"@.len());
    assert("get_zone_history"@.len() != "list_tsig_keys"@.len());
    assert("get_zone_history"@.len() != "create_zone"@.len());
    assert("get_zone_history"@.len() != "replace_zone"@.len());
    assert("get_zone_history"@.len() != "add_records"@.len());
    assert("get_zone_history"@.len() != "rollback_zone"@.len());
    assert("get_zone_history"@.len() != "force_notify"@.len());
    assert("get_zone_history"@.len() != "trigger_dnssec_rollover"@.len());
    assert("get_zone_history"@.len() != "deploy"@.len());
    assert("get_propagation_status"@.len() != "list_secondaries"@.len());
    assert("get_propagation_status"@.len() != "get_dnssec_status"@.len());
    assert("get_propagation_status"@.len() != "get_deploy_status"@.len());
    assert("get_propagation_status"@.len() != "list_tsig_keys"@.len());
    assert("get_propagation_status"@.len() != "create_zone"@.len());
    assert("get_propagation_status"@.len() != "replace_zone"@.len());
    assert("get_propagation_status"@.len() != "add_records"@.len());
    assert("get_propagation_status"@.len() != "rollback_zone"@.len());
    assert("get_propagation_status"@.len() != "force_notify"@.len());
    assert("get_propagation_status"@.len() != "trigger_dnssec_rollover"@.len());
    assert("get_propagation_status"@.len() != "deploy"@.len());
    assert("list_secondaries"@.len() != "get_dnssec_status"@.len());
    assert("list_secondaries"@.len() != "get_deploy_status"@.len());
    assert("list_secondaries"@.len() != "list_tsig_keys"@.len());
    assert("list_secondaries"@.len() != "create_zone"@.len());
    assert("list_secondaries"@.len() != "replace_zone"@.len());
    assert("list_secondaries"@.len() != "add_records"@.len());
    assert("list_secondaries"@.len() != "rollback_zone"@.len());
    assert("list_secondaries"@.len() != "force_notify"@.len());
    assert("list_secondaries"@.len() != "trigger_dnssec_rollover"@.len());
    assert("list_secondaries"@.len() != "deploy"@.len());
    assert("get_dnssec_status"@[5] != "get_deploy_status"@[5]);
    assert("get_dnssec_status"@.len() != "list_tsig_keys"@.len());
    assert("get_dnssec_status"@.len() != "create_zone"@.len());
    assert("get_dnssec_status"@.len() != "replace_zone"@.len());
    assert("get_dnssec_status"@.len() != "add_records"@.len());
    assert("get_dnssec_status"@.len() != "rollback_zone"@.len());
    assert("get_dnssec_status"@.len() != "force_notify"@.len());
    assert("get_dnssec_status"@.len() != "trigger_dnssec_rollover"@.len());
    assert("get_dnssec_status"@.len() != "deploy"@.len());
    assert("get_deploy_status"@.len() != "list_tsig_keys"@.len());
    assert("get_deploy_status"@.len() != "create_zone"@.len());
    assert("get_deploy_status"@.len() != "replace_zone"@.len());
    assert("get_deploy_status"@.len() != "add_records"@.len());
    assert("get_deploy_status"@.len() != "rollback_zone"@.len());
    assert("get_deploy_status"@.len() != "force_notify"@.len());
    assert("get_deploy_status"@.len() != "trigger_dnssec_rollover"@.len());
    assert("get_deploy_status"@.len() != "deploy"@.len());
    assert("list_tsig_keys"@.len() != "create_zone"@.len());
    assert("list_tsig_keys"@.len() != "replace_zone"@.len());
    assert("list_tsig_keys"@.len() != "add_records"@.len());
    assert("list_tsig_keys"@.len() != "rollback_zone"@.len());
    assert("list_tsig_keys"@.len() != "force_notify"@.len());
    assert("list_tsig_keys"@.len() != "trigger_dnssec_rollover"@.len());
    assert("list_tsig_keys"@.len() != "deploy"@.len());
    assert("create_zone"@.len() != "replace_zone"@.len());
    assert("create_zone"@[0] != "add_records"@[0]);
    assert("create_zone"@.len() != "rollback_zone"@.len());
    assert("create_zone"@.len() != "force_notify"@.len());
    assert("create_zone"@.len() != "trigger_dnssec_rollover"@.len());
    assert("create_zone"@.len() != "deploy"@.len());
    assert("replace_zone"@.len() != "add_records"@.len());
    assert("replace_zone"@.len() != "rollback_zone"@.len());
    assert("replace_zone"@[0] != "force_notify"@[0]);
    assert("replace_zone"@.len() != "trigger_dnssec_rollover"@.len());
    assert("replace_zone"@.len() != "deploy"@.len());
    assert("add_records"@.len() != "rollback_zone"@.len());
    assert("add_records"@.len() != "force_notify"@.len());
    assert("add_records"@.len() != "trigger_dnssec_rollover"@.len());
    assert("add_records"@.len() != "deploy"@.len());
    assert("rollback_zone"@.len() != "force_notify"@.len());
    assert("rollback_zone"@.len() != "trigger_dnssec_rollover"@.len());
    assert("rollback_zone"@.len() != "deploy"@.len());
    assert("force_notify"@.len() != "trigger_dnssec_rollover"@.len());
    assert("force_notify"@.len() != "deploy"@.len());
    assert("trigger_dnssec_rollover"@.len() != "deploy"@.len());
}

} // verus!
