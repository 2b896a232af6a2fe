//! Eve: the relational entry point into a Genesis-defined planning world.
//!
//! Eve does not plan, manufacture, actuate, observe, conform, admit, or
//! replay. It deterministically binds human purpose to a pre-existing
//! Genesis world and emits the typed handoff consumed by the formal
//! lifecycle that owns those acts.

use vstd::prelude::*;
use vstd::string::StringExecFns;
use vstd::utf8::encode_utf8;
use crate::digest::{
    blake3_hex, blake3_hex_digest, field_bytes, le8, lemma_field_decodes, lemma_le8_decodes, pow256,
    push_field, push_le8,
};
use crate::text::views;
use crate::text::{blank, cat, dec, is_blank, numbered};

verus! {

/// The protocol name bound into every closure identity.
pub const EVE_PROTOCOL: &'static str = "ferroplan.eve-genesis.v1";

/// A local Eve reflex may have at most eight primary activators.
/// A ninth activator requires the closure to be split.
pub const MAX_PRIMARY_ACTIVATORS: usize = 8;

/// Human purpose before it is grounded in the Genesis world.
#[derive(Clone, Debug, PartialEq, Eq)]
pub struct HumanPurpose {
    pub statement: String,
    pub desired_consequence: String,
    pub actor: Option<String>,
    pub activators: Vec<Activator>,
}

/// One bounded condition presented to Eve.
#[derive(Clone, Debug, PartialEq, Eq)]
pub struct Activator {
    pub name: String,
    pub value: String,
}

/// The created world Eve makes relationally accessible.
#[derive(Clone, Debug, PartialEq, Eq)]
pub struct GenesisWorld {
    pub ontology_rdf: String,
    pub construct_query: String,
    pub hddl: HddlSurface,
    pub ppddl: Option<PpddlSurface>,
}

/// HDDL source and the compound task representing the grounded purpose.
#[derive(Clone, Debug, PartialEq, Eq)]
pub struct HddlSurface {
    pub domain: String,
    pub problem: String,
    pub root_task: String,
}

/// PPDDL source used when the lawful world contains explicit uncertainty.
#[derive(Clone, Debug, PartialEq, Eq)]
pub struct PpddlSurface {
    pub domain: String,
    pub problem: String,
}

/// Requested ggen projection.
#[derive(Clone, Debug, PartialEq, Eq)]
pub struct ManufactureTarget {
    pub name: String,
    pub template: String,
    pub artifact_kind: String,
    pub output: String,
}

/// MCP+ capability boundary for the manufactured result.
#[derive(Clone, Debug, PartialEq, Eq)]
pub struct CapabilityTarget {
    pub capability: String,
    pub route: String,
    pub authority_scopes: Vec<String>,
}

/// Input to Eve's deterministic relational compiler.
#[derive(Clone, Debug, PartialEq, Eq)]
pub struct EveRequest {
    pub purpose: HumanPurpose,
    pub genesis: GenesisWorld,
    pub manufacture: ManufactureTarget,
    pub capability: CapabilityTarget,
}

/// Whether the grounded purpose uses deterministic planning or bounded PPDDL.
#[derive(Clone, Copy, Debug, PartialEq, Eq)]
pub enum PlanningRegime {
    Deterministic,
    Probabilistic,
}

/// One ordered lifecycle boundary emitted by Eve.
#[derive(Clone, Copy, Debug, PartialEq, Eq)]
pub enum EveStage {
    GroundHumanPurpose,
    ProjectGenesis,
    DecomposeHddl,
    GovernUncertaintyPpddl,
    ManufactureGgen,
    /// Expose a non-authoritative capability handoff through MCP+.
    ExposeMcpPlus,
    ActuateBrce,
    ObserveOcel2,
    ConformTruexKernel,
    AdmitReceipt,
    ReplayTruex,
}

/// Human purpose after Eve binds it to the selected Genesis world.
#[derive(Clone, Debug, PartialEq, Eq)]
pub struct GroundedGoal {
    pub statement: String,
    pub desired_consequence: String,
    pub actor: Option<String>,
    pub root_task: String,
    pub activators: Vec<Activator>,
}

/// Exact Genesis projection requested by Eve.
#[derive(Clone, Debug, PartialEq, Eq)]
pub struct GenesisProjection {
    pub ontology_rdf: String,
    pub construct_query: String,
}

/// Exact hierarchical decomposition request.
#[derive(Clone, Debug, PartialEq, Eq)]
pub struct HddlDecompositionRequest {
    pub domain: String,
    pub problem: String,
    pub root_task: String,
}

/// Exact probabilistic policy request, present only for uncertain worlds.
#[derive(Clone, Debug, PartialEq, Eq)]
pub struct PpddlPolicyRequest {
    pub domain: String,
    pub problem: String,
}

/// ggen manufacturing contract emitted by Eve.
#[derive(Clone, Debug, PartialEq, Eq)]
pub struct GgenManufacturingRequest {
    pub target: ManufactureTarget,
    pub closure_id: String,
    /// ggen constructs a candidate; it cannot self-admit execution.
    pub candidate_only: bool,
}

/// MCP+ handoff. The capability remains non-authoritative until Truex closes
/// the listed evidence, conformance, receipt, and replay obligations.
#[derive(Clone, Debug, PartialEq, Eq)]
pub struct McpPlusHandoff {
    pub target: CapabilityTarget,
    pub closure_id: String,
    pub ambient_authority: bool,
    pub brce_required: bool,
    pub receipt_obligations: Vec<String>,
}

/// Downstream consequence obligations owned by Truex rather than Eve.
#[derive(Clone, Debug, PartialEq, Eq)]
pub struct TruexContinuation {
    pub expected_process_geometry: String,
    pub observed_path_format: String,
    pub conformance_engine: String,
    pub terminal_authority: String,
    pub replay_required: bool,
}

/// Complete machine-readable handoff from Eve to the formal execution stack.
#[derive(Clone, Debug, PartialEq, Eq)]
pub struct EveHandoff {
    pub protocol: String,
    /// BLAKE3 identity of the complete, versioned request. It is not a
    /// receipt and does not prove execution.
    pub closure_id: String,
    pub planning_regime: PlanningRegime,
    pub stages: Vec<EveStage>,
    pub goal: GroundedGoal,
    pub genesis: GenesisProjection,
    pub hddl: HddlDecompositionRequest,
    pub ppddl: Option<PpddlPolicyRequest>,
    pub ggen: GgenManufacturingRequest,
    pub mcp_plus: McpPlusHandoff,
    pub truex: TruexContinuation,
}

/// Deterministic split directive produced by `Need9 => Split`.
#[derive(Clone, Debug, PartialEq, Eq)]
pub struct SplitDirective {
    pub provided: usize,
    pub maximum: usize,
    pub groups: Vec<Vec<Activator>>,
}

/// Eve refuses malformed or unbounded ingress.
#[derive(Clone, Debug, PartialEq, Eq)]
pub enum EveError {
    /// A required field is empty or whitespace only.
    Missing { field: String },
    /// More than [`MAX_PRIMARY_ACTIVATORS`] activators: the closure must be
    /// split along the directive.
    SplitRequired { directive: SplitDirective },
}

/// Stateless deterministic Eve compiler.
#[derive(Clone, Copy, Debug)]
pub struct Eve;

// ----- validation ---------------------------------------------------------------

/// The required fields of a request, as (field name, value), in the order
/// they are checked.
pub open spec fn required_fields(r: EveRequest) -> Seq<(Seq<char>, Seq<char>)> {
    seq![
        ("purpose.statement"@, r.purpose.statement@),
        ("purpose.desired_consequence"@, r.purpose.desired_consequence@),
    ] + match r.purpose.actor {
        Some(a) => seq![("purpose.actor"@, a@)],
        None => seq![],
    } + seq![
        ("genesis.ontology_rdf"@, r.genesis.ontology_rdf@),
        ("genesis.construct_query"@, r.genesis.construct_query@),
        ("genesis.hddl.domain"@, r.genesis.hddl.domain@),
        ("genesis.hddl.problem"@, r.genesis.hddl.problem@),
        ("genesis.hddl.root_task"@, r.genesis.hddl.root_task@),
    ] + match r.genesis.ppddl {
        Some(p) => seq![("genesis.ppddl.domain"@, p.domain@), ("genesis.ppddl.problem"@, p.problem@)],
        None => seq![],
    } + seq![
        ("manufacture.name"@, r.manufacture.name@),
        ("manufacture.template"@, r.manufacture.template@),
        ("manufacture.artifact_kind"@, r.manufacture.artifact_kind@),
        ("manufacture.output"@, r.manufacture.output@),
        ("capability.capability"@, r.capability.capability@),
        ("capability.route"@, r.capability.route@),
    ]
}

pub open spec fn activator_fields(acts: Seq<Activator>) -> Seq<(Seq<char>, Seq<char>)>
    decreases acts.len(),
{
    if acts.len() == 0 {
        seq![]
    } else {
        let i = (acts.len() - 1) as nat;
        activator_fields(acts.drop_last()) + seq![
            ("purpose.activators["@ + dec(i) + "].name"@, acts.last().name@),
            ("purpose.activators["@ + dec(i) + "].value"@, acts.last().value@),
        ]
    }
}

pub open spec fn scope_fields(scopes: Seq<String>) -> Seq<(Seq<char>, Seq<char>)>
    decreases scopes.len(),
{
    if scopes.len() == 0 {
        seq![]
    } else {
        scope_fields(scopes.drop_last()) + seq![
            (
                "capability.authority_scopes["@ + dec((scopes.len() - 1) as nat) + "]"@,
                scopes.last()@,
            ),
        ]
    }
}

/// The bounded member fields: every activator's name and value, then every
/// authority scope.
pub open spec fn member_fields(r: EveRequest) -> Seq<(Seq<char>, Seq<char>)> {
    activator_fields(r.purpose.activators@) + scope_fields(r.capability.authority_scopes@)
}

/// The name of the first blank field, if any.
pub open spec fn first_blank(fields: Seq<(Seq<char>, Seq<char>)>) -> Option<Seq<char>>
    decreases fields.len(),
{
    if fields.len() == 0 {
        None
    } else if blank(fields[0].1) {
        Some(fields[0].0)
    } else {
        first_blank(fields.drop_first())
    }
}

proof fn lemma_first_blank_concat(a: Seq<(Seq<char>, Seq<char>)>, b: Seq<(Seq<char>, Seq<char>)>)
    ensures
        first_blank(a + b) == match first_blank(a) {
            Some(f) => Some(f),
            None => first_blank(b),
        },
    decreases a.len(),
{
    if a.len() > 0 {
        assert((a + b).drop_first() =~= a.drop_first() + b);
        lemma_first_blank_concat(a.drop_first(), b);
    } else {
        assert(a + b =~= b);
    }
}

/// Checks the fields in order; the first blank one is refused.
fn check_fields(fields: &Vec<(String, &str)>) -> (r: Result<(), EveError>)
    ensures
        match first_blank(fields@.map_values(|f: (String, &str)| (f.0@, f.1@))) {
            Some(name) => r matches Err(EveError::Missing { field }) && field@ == name,
            None => r is Ok,
        },
{
    let ghost all = fields@.map_values(|f: (String, &str)| (f.0@, f.1@));
    let mut i: usize = 0;
    proof {
        assert(all.skip(0) =~= all);
    }
    while i < fields.len()
        invariant
            i <= fields@.len(),
            all == fields@.map_values(|f: (String, &str)| (f.0@, f.1@)),
            first_blank(all) == first_blank(all.skip(i as int)),
        decreases fields@.len() - i,
    {
        proof {
            assert(all.skip(i as int).drop_first() =~= all.skip(i + 1));
            assert(all.skip(i as int)[0] == (fields@[i as int].0@, fields@[i as int].1@));
        }
        if is_blank(fields[i].1) {
            return Err(EveError::Missing { field: fields[i].0.clone() });
        }
        i = i + 1;
    }
    Ok(())
}

fn named<'a>(name: &str, value: &'a str) -> (f: (String, &'a str))
    ensures
        f.0@ == name@,
        f.1 == value,
{
    (String::from_str(name), value)
}

fn required_list(request: &EveRequest) -> (v: Vec<(String, &str)>)
    ensures
        v@.map_values(|f: (String, &str)| (f.0@, f.1@)) == required_fields(*request),
{
    let mut v: Vec<(String, &str)> = Vec::new();
    v.push(named("purpose.statement", request.purpose.statement.as_str()));
    v.push(named("purpose.desired_consequence", request.purpose.desired_consequence.as_str()));
    if let Some(actor) = &request.purpose.actor {
        v.push(named("purpose.actor", actor.as_str()));
    }
    v.push(named("genesis.ontology_rdf", request.genesis.ontology_rdf.as_str()));
    v.push(named("genesis.construct_query", request.genesis.construct_query.as_str()));
    v.push(named("genesis.hddl.domain", request.genesis.hddl.domain.as_str()));
    v.push(named("genesis.hddl.problem", request.genesis.hddl.problem.as_str()));
    v.push(named("genesis.hddl.root_task", request.genesis.hddl.root_task.as_str()));
    if let Some(ppddl) = &request.genesis.ppddl {
        v.push(named("genesis.ppddl.domain", ppddl.domain.as_str()));
        v.push(named("genesis.ppddl.problem", ppddl.problem.as_str()));
    }
    v.push(named("manufacture.name", request.manufacture.name.as_str()));
    v.push(named("manufacture.template", request.manufacture.template.as_str()));
    v.push(named("manufacture.artifact_kind", request.manufacture.artifact_kind.as_str()));
    v.push(named("manufacture.output", request.manufacture.output.as_str()));
    v.push(named("capability.capability", request.capability.capability.as_str()));
    v.push(named("capability.route", request.capability.route.as_str()));
    proof {
        assert(v@.map_values(|f: (String, &str)| (f.0@, f.1@)) =~= required_fields(*request));
    }
    v
}

fn member_list(request: &EveRequest) -> (v: Vec<(String, &str)>)
    ensures
        v@.map_values(|f: (String, &str)| (f.0@, f.1@)) == member_fields(*request),
{
    let acts = &request.purpose.activators;
    let scopes = &request.capability.authority_scopes;
    let mut v: Vec<(String, &str)> = Vec::new();
    let mut i: usize = 0;
    while i < acts.len()
        invariant
            i <= acts@.len(),
            acts == &request.purpose.activators,
            v@.map_values(|f: (String, &str)| (f.0@, f.1@)) == activator_fields(acts@.take(i as int)),
        decreases acts@.len() - i,
    {
        let ghost before = v@;
        let n = numbered("purpose.activators[", i, "].name");
        let m = numbered("purpose.activators[", i, "].value");
        v.push((n, acts[i].name.as_str()));
        v.push((m, acts[i].value.as_str()));
        proof {
            let t = acts@.take(i + 1);
            assert(t.drop_last() =~= acts@.take(i as int));
            assert(v@.map_values(|f: (String, &str)| (f.0@, f.1@)) =~= activator_fields(t));
        }
        i = i + 1;
    }
    proof {
        assert(acts@.take(acts@.len() as int) =~= acts@);
    }
    let ghost head = v@.map_values(|f: (String, &str)| (f.0@, f.1@));
    let mut j: usize = 0;
    while j < scopes.len()
        invariant
            j <= scopes@.len(),
            scopes == &request.capability.authority_scopes,
            head == activator_fields(request.purpose.activators@),
            v@.map_values(|f: (String, &str)| (f.0@, f.1@)) == head + scope_fields(scopes@.take(j as int)),
        decreases scopes@.len() - j,
    {
        let ghost before = v@;
        let n = numbered("capability.authority_scopes[", j, "]");
        let ghost nv = n@;
        v.push((n, scopes[j].as_str()));
        proof {
            let t = scopes@.take(j + 1);
            assert(t.drop_last() =~= scopes@.take(j as int));
            assert(t.last() == scopes@[j as int]);
            assert(scope_fields(t) == scope_fields(scopes@.take(j as int)) + seq![(nv, scopes@[j as int]@)]);
            assert(v@.map_values(|f: (String, &str)| (f.0@, f.1@)) =~= before.map_values(|f: (String, &str)| (f.0@, f.1@)).push((nv, scopes@[j as int]@)));
            assert(v@.map_values(|f: (String, &str)| (f.0@, f.1@)) =~= head + scope_fields(t));
        }
        j = j + 1;
    }
    proof {
        assert(scopes@.take(scopes@.len() as int) =~= scopes@);
    }
    v
}

fn validate_request(request: &EveRequest) -> (r: Result<(), EveError>)
    ensures
        match first_blank(required_fields(*request)) {
            Some(name) => r matches Err(EveError::Missing { field }) && field@ == name,
            None => r is Ok,
        },
{
    let fields = required_list(request);
    check_fields(&fields)
}

fn validate_bounded_members(request: &EveRequest) -> (r: Result<(), EveError>)
    ensures
        match first_blank(member_fields(*request)) {
            Some(name) => r matches Err(EveError::Missing { field }) && field@ == name,
            None => r is Ok,
        },
{
    let fields = member_list(request);
    check_fields(&fields)
}

/// Whether `value` is present: not empty and not whitespace only.
pub fn validate_required(field: &str, value: &str) -> (r: Result<(), EveError>)
    ensures
        blank(value@) ==> (r matches Err(EveError::Missing { field: f }) && f@ == field@),
        !blank(value@) ==> r is Ok,
{
    if is_blank(value) {
        Err(EveError::Missing { field: String::from_str(field) })
    } else {
        Ok(())
    }
}

// ----- lifecycle ----------------------------------------------------------------

/// The ordered lifecycle boundaries; the PPDDL stage only for probabilistic
/// worlds.
pub open spec fn stages_of(regime: PlanningRegime) -> Seq<EveStage> {
    seq![EveStage::GroundHumanPurpose, EveStage::ProjectGenesis, EveStage::DecomposeHddl] + if regime
        == PlanningRegime::Probabilistic {
        seq![EveStage::GovernUncertaintyPpddl]
    } else {
        seq![]
    } + seq![
        EveStage::ManufactureGgen,
        EveStage::ExposeMcpPlus,
        EveStage::ActuateBrce,
        EveStage::ObserveOcel2,
        EveStage::ConformTruexKernel,
        EveStage::AdmitReceipt,
        EveStage::ReplayTruex,
    ]
}

fn lifecycle_stages(regime: PlanningRegime) -> (v: Vec<EveStage>)
    ensures
        v@ == stages_of(regime),
{
    let mut stages: Vec<EveStage> = Vec::new();
    stages.push(EveStage::GroundHumanPurpose);
    stages.push(EveStage::ProjectGenesis);
    stages.push(EveStage::DecomposeHddl);
    let probabilistic = match regime {
        PlanningRegime::Probabilistic => true,
        PlanningRegime::Deterministic => false,
    };
    if probabilistic {
        stages.push(EveStage::GovernUncertaintyPpddl);
    }
    stages.push(EveStage::ManufactureGgen);
    stages.push(EveStage::ExposeMcpPlus);
    stages.push(EveStage::ActuateBrce);
    stages.push(EveStage::ObserveOcel2);
    stages.push(EveStage::ConformTruexKernel);
    stages.push(EveStage::AdmitReceipt);
    stages.push(EveStage::ReplayTruex);
    proof {
        assert(stages@ =~= stages_of(regime));
    }
    stages
}

// ----- closure identity ---------------------------------------------------------------

pub open spec fn tag(t: u8) -> Seq<u8> {
    seq![t]
}

pub open spec fn optional_bytes(v: Option<String>) -> Seq<u8> {
    match v {
        Some(s) => tag(1) + field_bytes(s@),
        None => tag(0),
    }
}

pub open spec fn activator_bytes(acts: Seq<Activator>) -> Seq<u8>
    decreases acts.len(),
{
    if acts.len() == 0 {
        seq![]
    } else {
        activator_bytes(acts.drop_last()) + field_bytes(acts.last().name@) + field_bytes(
            acts.last().value@,
        )
    }
}

pub open spec fn scope_bytes(scopes: Seq<String>) -> Seq<u8>
    decreases scopes.len(),
{
    if scopes.len() == 0 {
        seq![]
    } else {
        scope_bytes(scopes.drop_last()) + field_bytes(scopes.last()@)
    }
}

/// The framed bytes whose BLAKE3 digest identifies a request: every field
/// length-prefixed, every optional part tagged, every list counted, in a
/// fixed order under the protocol name.
pub open spec fn closure_preimage(r: EveRequest) -> Seq<u8> {
    field_bytes(EVE_PROTOCOL@) + purpose_bytes(r.purpose) + genesis_bytes(r.genesis) + target_bytes(
        r.manufacture,
        r.capability,
    )
}

/// The purpose part of the preimage.
pub open spec fn purpose_bytes(p: HumanPurpose) -> Seq<u8> {
    field_bytes(p.statement@) + field_bytes(p.desired_consequence@) + optional_bytes(p.actor) + le8(
        p.activators@.len(),
    ) + activator_bytes(p.activators@)
}

/// The Genesis part of the preimage.
pub open spec fn genesis_bytes(g: GenesisWorld) -> Seq<u8> {
    field_bytes(g.ontology_rdf@) + field_bytes(g.construct_query@) + field_bytes(g.hddl.domain@)
        + field_bytes(g.hddl.problem@) + field_bytes(g.hddl.root_task@) + match g.ppddl {
        Some(p) => tag(1) + field_bytes(p.domain@) + field_bytes(p.problem@),
        None => tag(0),
    }
}

/// The manufacture and capability part of the preimage.
pub open spec fn target_bytes(m: ManufactureTarget, c: CapabilityTarget) -> Seq<u8> {
    field_bytes(m.name@) + field_bytes(m.template@) + field_bytes(m.artifact_kind@) + field_bytes(
        m.output@,
    ) + field_bytes(c.capability@) + field_bytes(c.route@) + le8(c.authority_scopes@.len())
        + scope_bytes(c.authority_scopes@)
}

/// The closure identity of a request.
pub open spec fn closure_of(r: EveRequest) -> Seq<char> {
    "eve:"@ + blake3_hex(closure_preimage(r))
}

fn push_tag(buf: &mut Vec<u8>, t: u8)
    ensures
        final(buf)@ == old(buf)@ + tag(t),
{
    buf.push(t);
    proof {
        assert(buf@ =~= old(buf)@ + tag(t));
    }
}

fn push_purpose(b: &mut Vec<u8>, p: &HumanPurpose)
    ensures
        final(b)@ == old(b)@ + purpose_bytes(*p),
{
    let ghost start = b@;
    push_field(b, p.statement.as_str());
    push_field(b, p.desired_consequence.as_str());
    match &p.actor {
        Some(actor) => {
            push_tag(b, 1);
            push_field(b, actor.as_str());
        },
        None => push_tag(b, 0),
    }
    let acts = &p.activators;
    push_le8(b, acts.len() as u64);
    let ghost head = b@;
    proof {
        assert(head =~= start + field_bytes(p.statement@) + field_bytes(p.desired_consequence@)
            + optional_bytes(p.actor) + le8(p.activators@.len()));
        assert(acts@.take(0) =~= Seq::<Activator>::empty());
        assert(b@ =~= head + activator_bytes(acts@.take(0)));
    }
    let mut i: usize = 0;
    while i < acts.len()
        invariant
            i <= acts@.len(),
            acts == &p.activators,
            b@ == head + activator_bytes(acts@.take(i as int)),
        decreases acts@.len() - i,
    {
        push_field(b, acts[i].name.as_str());
        push_field(b, acts[i].value.as_str());
        proof {
            assert(acts@.take(i + 1).drop_last() =~= acts@.take(i as int));
            assert(b@ =~= head + activator_bytes(acts@.take(i + 1)));
        }
        i = i + 1;
    }
    proof {
        assert(acts@.take(acts@.len() as int) =~= acts@);
        assert(b@ =~= start + purpose_bytes(*p));
    }
}

fn push_genesis(b: &mut Vec<u8>, g: &GenesisWorld)
    ensures
        final(b)@ == old(b)@ + genesis_bytes(*g),
{
    let ghost start = b@;
    push_field(b, g.ontology_rdf.as_str());
    push_field(b, g.construct_query.as_str());
    push_field(b, g.hddl.domain.as_str());
    push_field(b, g.hddl.problem.as_str());
    push_field(b, g.hddl.root_task.as_str());
    match &g.ppddl {
        Some(ppddl) => {
            push_tag(b, 1);
            push_field(b, ppddl.domain.as_str());
            push_field(b, ppddl.problem.as_str());
        },
        None => push_tag(b, 0),
    }
    proof {
        assert(b@ =~= start + genesis_bytes(*g));
    }
}

fn push_targets(b: &mut Vec<u8>, m: &ManufactureTarget, c: &CapabilityTarget)
    ensures
        final(b)@ == old(b)@ + target_bytes(*m, *c),
{
    let ghost start = b@;
    push_field(b, m.name.as_str());
    push_field(b, m.template.as_str());
    push_field(b, m.artifact_kind.as_str());
    push_field(b, m.output.as_str());
    push_field(b, c.capability.as_str());
    push_field(b, c.route.as_str());
    let scopes = &c.authority_scopes;
    push_le8(b, scopes.len() as u64);
    let ghost head = b@;
    proof {
        assert(scopes@.take(0) =~= Seq::<String>::empty());
        assert(b@ =~= head + scope_bytes(scopes@.take(0)));
    }
    let mut j: usize = 0;
    while j < scopes.len()
        invariant
            j <= scopes@.len(),
            scopes == &c.authority_scopes,
            b@ == head + scope_bytes(scopes@.take(j as int)),
        decreases scopes@.len() - j,
    {
        push_field(b, scopes[j].as_str());
        proof {
            assert(scopes@.take(j + 1).drop_last() =~= scopes@.take(j as int));
            assert(b@ =~= head + scope_bytes(scopes@.take(j + 1)));
        }
        j = j + 1;
    }
    proof {
        assert(scopes@.take(scopes@.len() as int) =~= scopes@);
        assert(b@ =~= start + target_bytes(*m, *c));
    }
}

fn closure_id(request: &EveRequest) -> (id: String)
    ensures
        id@ == closure_of(*request),
{
    let mut b: Vec<u8> = Vec::new();
    push_field(&mut b, EVE_PROTOCOL);
    push_purpose(&mut b, &request.purpose);
    push_genesis(&mut b, &request.genesis);
    push_targets(&mut b, &request.manufacture, &request.capability);
    proof {
        assert(b@ =~= closure_preimage(*request));
    }
    let hex = blake3_hex_digest(b.as_slice());
    cat("eve:", hex.as_str())
}

// ----- the split directive ------------------------------------------------------

/// Activators cut into consecutive groups of at most eight.
pub open spec fn chunked(acts: Seq<Activator>, groups: Seq<Seq<Activator>>) -> bool {
    &&& groups.len() == (acts.len() + 7) / 8
    &&& forall|g: int|
        0 <= g < groups.len() ==> #[trigger] groups[g] == acts.subrange(
            8 * g,
            if 8 * g + 8 <= acts.len() {
                8 * g + 8
            } else {
                acts.len() as int
            },
        )
}

fn copy_activator(a: &Activator) -> (c: Activator)
    ensures
        c == *a,
{
    Activator { name: a.name.clone(), value: a.value.clone() }
}

fn split_groups(acts: &Vec<Activator>) -> (groups: Vec<Vec<Activator>>)
    ensures
        chunked(acts@, groups@.map_values(|g: Vec<Activator>| g@)),
{
    let mut groups: Vec<Vec<Activator>> = Vec::new();
    let mut start: usize = 0;
    while start < acts.len()
        invariant
            start <= acts@.len(),
            (groups@.len() == 0 && start == 0) || (8 * (groups@.len() - 1) < acts@.len() && start
                == if 8 * groups@.len() <= acts@.len() {
                8 * groups@.len() as int
            } else {
                acts@.len() as int
            }),
            forall|g: int|
                0 <= g < groups@.len() ==> (#[trigger] groups@[g])@ == acts@.subrange(
                    8 * g,
                    if 8 * g + 8 <= acts@.len() {
                        8 * g + 8
                    } else {
                        acts@.len() as int
                    },
                ),
        decreases acts@.len() - start,
    {
        let end: usize = if acts.len() - start >= 8 {
            start + 8
        } else {
            acts.len()
        };
        let mut group: Vec<Activator> = Vec::new();
        let mut k: usize = start;
        while k < end
            invariant
                start <= k <= end <= acts@.len(),
                group@ == acts@.subrange(start as int, k as int),
            decreases end - k,
        {
            group.push(copy_activator(&acts[k]));
            k = k + 1;
            assert(group@ =~= acts@.subrange(start as int, k as int));
        }
        groups.push(group);
        start = end;
    }
    proof {
        assert(groups@.len() == (acts@.len() + 7) / 8);
        assert(chunked(acts@, groups@.map_values(|g: Vec<Activator>| g@)));
    }
    groups
}

// ----- the handoff ----------------------------------------------------------------

/// The fixed receipt obligations every MCP+ handoff carries, in order.
pub open spec fn receipt_obligations() -> Seq<Seq<char>> {
    seq![
        "artifact-materialized"@,
        "boundary-evidence"@,
        "ocel2-observed-path"@,
        "powl-conformance"@,
        "receipt-admission-or-refusal"@,
        "replay"@,
    ]
}

/// `h` is the handoff Eve emits for the (valid, bounded) request `r`.
pub open spec fn handoff_for(r: EveRequest, h: EveHandoff) -> bool {
    let regime = if r.genesis.ppddl is Some {
        PlanningRegime::Probabilistic
    } else {
        PlanningRegime::Deterministic
    };
    &&& h.protocol@ == EVE_PROTOCOL@
    &&& h.closure_id@ == closure_of(r)
    &&& h.planning_regime == regime
    &&& h.stages@ == stages_of(regime)
    &&& h.goal == (GroundedGoal {
        statement: r.purpose.statement,
        desired_consequence: r.purpose.desired_consequence,
        actor: r.purpose.actor,
        root_task: r.genesis.hddl.root_task,
        activators: r.purpose.activators,
    })
    &&& h.genesis == (GenesisProjection {
        ontology_rdf: r.genesis.ontology_rdf,
        construct_query: r.genesis.construct_query,
    })
    &&& h.hddl == (HddlDecompositionRequest {
        domain: r.genesis.hddl.domain,
        problem: r.genesis.hddl.problem,
        root_task: r.genesis.hddl.root_task,
    })
    &&& match r.genesis.ppddl {
        Some(p) => h.ppddl == Some(PpddlPolicyRequest { domain: p.domain, problem: p.problem }),
        None => h.ppddl is None,
    }
    &&& h.ggen.target == r.manufacture
    &&& h.ggen.closure_id@ == closure_of(r)
    &&& h.ggen.candidate_only
    &&& h.mcp_plus.target == r.capability
    &&& h.mcp_plus.closure_id@ == closure_of(r)
    &&& !h.mcp_plus.ambient_authority
    &&& h.mcp_plus.brce_required
    &&& h.mcp_plus.receipt_obligations@.map_values(|s: String| s@) == receipt_obligations()
    &&& h.truex.expected_process_geometry@ == "POWL-v2"@
    &&& h.truex.observed_path_format@ == "OCEL-2.0"@
    &&& h.truex.conformance_engine@ == "Truex-Kernel/wasm4pm"@
    &&& h.truex.terminal_authority@ == "receipt-admission-or-refusal"@
    &&& h.truex.replay_required
}

/// What Eve answers for a request: the first blank required field; else a
/// split directive when there are more than eight activators; else the
/// first blank activator or scope; else the handoff.
pub open spec fn enter_answer(r: EveRequest, out: Result<EveHandoff, EveError>) -> bool {
    match first_blank(required_fields(r)) {
        Some(name) => out matches Err(EveError::Missing { field }) && field@ == name,
        None => if r.purpose.activators@.len() > MAX_PRIMARY_ACTIVATORS {
            out matches Err(EveError::SplitRequired { directive }) && directive.provided
                == r.purpose.activators@.len() && directive.maximum == MAX_PRIMARY_ACTIVATORS
                && chunked(
                r.purpose.activators@,
                directive.groups@.map_values(|g: Vec<Activator>| g@),
            )
        } else {
            match first_blank(member_fields(r)) {
                Some(name) => out matches Err(EveError::Missing { field }) && field@ == name,
                None => out matches Ok(h) && handoff_for(r, h),
            }
        },
    }
}

fn obligations() -> (v: Vec<String>)
    ensures
        v@.map_values(|s: String| s@) == receipt_obligations(),
{
    let mut v: Vec<String> = Vec::new();
    v.push(String::from_str("artifact-materialized"));
    v.push(String::from_str("boundary-evidence"));
    v.push(String::from_str("ocel2-observed-path"));
    v.push(String::from_str("powl-conformance"));
    v.push(String::from_str("receipt-admission-or-refusal"));
    v.push(String::from_str("replay"));
    proof {
        assert(v@.map_values(|s: String| s@) =~= receipt_obligations());
    }
    v
}

impl Eve {
    /// Compile human purpose into a typed handoff across Genesis, HDDL,
    /// optional PPDDL, ggen, MCP+, and the downstream Truex lifecycle.
    ///
    /// This method performs no actuation and emits no receipt.
    pub fn enter(request: EveRequest) -> (out: Result<EveHandoff, EveError>)
        ensures
            enter_answer(request, out),
    {
        validate_request(&request)?;
        if request.purpose.activators.len() > MAX_PRIMARY_ACTIVATORS {
            let groups = split_groups(&request.purpose.activators);
            return Err(
                EveError::SplitRequired {
                    directive: SplitDirective {
                        provided: request.purpose.activators.len(),
                        maximum: MAX_PRIMARY_ACTIVATORS,
                        groups,
                    },
                },
            );
        }
        validate_bounded_members(&request)?;
        let closure = closure_id(&request);
        let probabilistic = request.genesis.ppddl.is_some();
        let planning_regime = if probabilistic {
            PlanningRegime::Probabilistic
        } else {
            PlanningRegime::Deterministic
        };
        let stages = lifecycle_stages(planning_regime);
        let ghost r = request;
        let EveRequest { purpose, genesis, manufacture, capability } = request;
        let ppddl = match genesis.ppddl {
            Some(surface) => Some(
                PpddlPolicyRequest { domain: surface.domain, problem: surface.problem },
            ),
            None => None,
        };
        let root_task = genesis.hddl.root_task;
        let h = EveHandoff {
            protocol: String::from_str(EVE_PROTOCOL),
            closure_id: closure.clone(),
            planning_regime,
            stages,
            goal: GroundedGoal {
                statement: purpose.statement,
                desired_consequence: purpose.desired_consequence,
                actor: purpose.actor,
                root_task: root_task.clone(),
                activators: purpose.activators,
            },
            genesis: GenesisProjection {
                ontology_rdf: genesis.ontology_rdf,
                construct_query: genesis.construct_query,
            },
            hddl: HddlDecompositionRequest {
                domain: genesis.hddl.domain,
                problem: genesis.hddl.problem,
                root_task,
            },
            ppddl,
            ggen: GgenManufacturingRequest {
                target: manufacture,
                closure_id: closure.clone(),
                candidate_only: true,
            },
            mcp_plus: McpPlusHandoff {
                target: capability,
                closure_id: closure,
                ambient_authority: false,
                brce_required: true,
                receipt_obligations: obligations(),
            },
            truex: TruexContinuation {
                expected_process_geometry: String::from_str("POWL-v2"),
                observed_path_format: String::from_str("OCEL-2.0"),
                conformance_engine: String::from_str("Truex-Kernel/wasm4pm"),
                terminal_authority: String::from_str("receipt-admission-or-refusal"),
                replay_required: true,
            },
        };
        Ok(h)
    }
}

// ----- the identity binds every field ------------------------------------------------

/// A string whose UTF-8 length fits the eight-byte length prefix.
pub open spec fn fits(s: String) -> bool {
    encode_utf8(s@).len() < pow256(8)
}

/// Every length and count the preimage frames fits eight bytes (as it does
/// for any request held in memory).
pub open spec fn request_fits(r: EveRequest) -> bool {
    let p = r.purpose;
    let g = r.genesis;
    let m = r.manufacture;
    let c = r.capability;
    &&& fits(p.statement) && fits(p.desired_consequence)
    &&& (p.actor matches Some(a) ==> fits(a))
    &&& p.activators@.len() < pow256(8)
    &&& forall|i: int|
        0 <= i < p.activators@.len() ==> fits(#[trigger] p.activators@[i].name) && fits(
            p.activators@[i].value,
        )
    &&& fits(g.ontology_rdf) && fits(g.construct_query)
    &&& fits(g.hddl.domain) && fits(g.hddl.problem) && fits(g.hddl.root_task)
    &&& (g.ppddl matches Some(pp) ==> fits(pp.domain) && fits(pp.problem))
    &&& fits(m.name) && fits(m.template) && fits(m.artifact_kind) && fits(m.output)
    &&& fits(c.capability) && fits(c.route)
    &&& c.authority_scopes@.len() < pow256(8)
    &&& forall|i: int| 0 <= i < c.authority_scopes@.len() ==> fits(#[trigger] c.authority_scopes@[i])
}

pub open spec fn actor_view(a: Option<String>) -> Option<Seq<char>> {
    match a {
        Some(s) => Some(s@),
        None => None,
    }
}

pub open spec fn activator_views(acts: Seq<Activator>) -> Seq<(Seq<char>, Seq<char>)> {
    acts.map_values(|a: Activator| (a.name@, a.value@))
}

pub open spec fn ppddl_view(p: Option<PpddlSurface>) -> Option<(Seq<char>, Seq<char>)> {
    match p {
        Some(s) => Some((s.domain@, s.problem@)),
        None => None,
    }
}

/// Two requests say the same in every field.
pub open spec fn same_request(a: EveRequest, b: EveRequest) -> bool {
    &&& a.purpose.statement@ == b.purpose.statement@
    &&& a.purpose.desired_consequence@ == b.purpose.desired_consequence@
    &&& actor_view(a.purpose.actor) == actor_view(b.purpose.actor)
    &&& activator_views(a.purpose.activators@) == activator_views(b.purpose.activators@)
    &&& a.genesis.ontology_rdf@ == b.genesis.ontology_rdf@
    &&& a.genesis.construct_query@ == b.genesis.construct_query@
    &&& a.genesis.hddl.domain@ == b.genesis.hddl.domain@
    &&& a.genesis.hddl.problem@ == b.genesis.hddl.problem@
    &&& a.genesis.hddl.root_task@ == b.genesis.hddl.root_task@
    &&& ppddl_view(a.genesis.ppddl) == ppddl_view(b.genesis.ppddl)
    &&& a.manufacture.name@ == b.manufacture.name@
    &&& a.manufacture.template@ == b.manufacture.template@
    &&& a.manufacture.artifact_kind@ == b.manufacture.artifact_kind@
    &&& a.manufacture.output@ == b.manufacture.output@
    &&& a.capability.capability@ == b.capability.capability@
    &&& a.capability.route@ == b.capability.route@
    &&& views(a.capability.authority_scopes@) == views(b.capability.authority_scopes@)
}

proof fn lemma_peel(a: Seq<u8>, b: Seq<u8>, r: Seq<u8>)
    ensures
        (a + b) + r == a + (b + r),
{
    assert((a + b) + r =~= a + (b + r));
}

proof fn lemma_tag_decodes(x: u8, y: u8, ra: Seq<u8>, rb: Seq<u8>)
    requires
        tag(x) + ra == tag(y) + rb,
    ensures
        x == y,
        ra == rb,
{
    assert((tag(x) + ra)[0] == x);
    assert((tag(y) + rb)[0] == y);
    assert((tag(x) + ra).skip(1) =~= ra);
    assert((tag(y) + rb).skip(1) =~= rb);
}

proof fn lemma_optional_decodes(a: Option<String>, b: Option<String>, ra: Seq<u8>, rb: Seq<u8>)
    requires
        a matches Some(s) ==> fits(s),
        b matches Some(s) ==> fits(s),
        optional_bytes(a) + ra == optional_bytes(b) + rb,
    ensures
        actor_view(a) == actor_view(b),
        ra == rb,
{
    match (a, b) {
        (Some(x), Some(y)) => {
            assert(optional_bytes(a) + ra =~= tag(1) + (field_bytes(x@) + ra));
            assert(optional_bytes(b) + rb =~= tag(1) + (field_bytes(y@) + rb));
            lemma_tag_decodes(1, 1, field_bytes(x@) + ra, field_bytes(y@) + rb);
            lemma_field_decodes(x@, y@, ra, rb);
        },
        (Some(x), None) => {
            assert(optional_bytes(a) + ra =~= tag(1) + (field_bytes(x@) + ra));
            lemma_tag_decodes(1, 0, field_bytes(x@) + ra, rb);
        },
        (None, Some(y)) => {
            assert(optional_bytes(b) + rb =~= tag(1) + (field_bytes(y@) + rb));
            lemma_tag_decodes(0, 1, ra, field_bytes(y@) + rb);
        },
        (None, None) => {
            lemma_tag_decodes(0, 0, ra, rb);
        },
    }
}

proof fn lemma_activator_bytes_front(acts: Seq<Activator>)
    requires
        acts.len() > 0,
    ensures
        activator_bytes(acts) == field_bytes(acts[0].name@) + field_bytes(acts[0].value@)
            + activator_bytes(acts.drop_first()),
    decreases acts.len(),
{
    if acts.len() > 1 {
        lemma_activator_bytes_front(acts.drop_last());
        assert(acts.drop_last().drop_first() =~= acts.drop_first().drop_last());
        assert(acts.drop_last()[0] == acts[0]);
        assert(acts.drop_first().last() == acts.last());
    } else {
        assert(acts.drop_last() =~= Seq::<Activator>::empty());
        assert(acts.drop_first() =~= Seq::<Activator>::empty());
    }
}

proof fn lemma_activators_decode(a: Seq<Activator>, b: Seq<Activator>, ra: Seq<u8>, rb: Seq<u8>)
    requires
        a.len() == b.len(),
        forall|i: int| 0 <= i < a.len() ==> fits(#[trigger] a[i].name) && fits(a[i].value),
        forall|i: int| 0 <= i < b.len() ==> fits(#[trigger] b[i].name) && fits(b[i].value),
        activator_bytes(a) + ra == activator_bytes(b) + rb,
    ensures
        activator_views(a) == activator_views(b),
        ra == rb,
    decreases a.len(),
{
    if a.len() == 0 {
        assert(activator_views(a) =~= activator_views(b));
    } else {
        lemma_activator_bytes_front(a);
        lemma_activator_bytes_front(b);
        let ta = activator_bytes(a.drop_first()) + ra;
        let tb = activator_bytes(b.drop_first()) + rb;
        assert(fits(a[0].name) && fits(a[0].value));
        assert(fits(b[0].name) && fits(b[0].value));
        assert(activator_bytes(a) + ra =~= field_bytes(a[0].name@) + (field_bytes(a[0].value@) + ta));
        assert(activator_bytes(b) + rb =~= field_bytes(b[0].name@) + (field_bytes(b[0].value@) + tb));
        lemma_field_decodes(a[0].name@, b[0].name@, field_bytes(a[0].value@) + ta, field_bytes(
            b[0].value@,
        ) + tb);
        lemma_field_decodes(a[0].value@, b[0].value@, ta, tb);
        assert forall|i: int| 0 <= i < a.drop_first().len() implies fits(
            #[trigger] a.drop_first()[i].name,
        ) && fits(a.drop_first()[i].value) by {
            assert(a.drop_first()[i] == a[i + 1]);
            assert(fits(a[i + 1].name) && fits(a[i + 1].value));
        }
        assert forall|i: int| 0 <= i < b.drop_first().len() implies fits(
            #[trigger] b.drop_first()[i].name,
        ) && fits(b.drop_first()[i].value) by {
            assert(b.drop_first()[i] == b[i + 1]);
            assert(fits(b[i + 1].name) && fits(b[i + 1].value));
        }
        lemma_activators_decode(a.drop_first(), b.drop_first(), ra, rb);
        assert forall|i: int| 0 <= i < a.len() implies activator_views(a)[i] == activator_views(b)[i] by {
            if i > 0 {
                assert(activator_views(a.drop_first())[i - 1] == activator_views(a)[i]);
                assert(activator_views(b.drop_first())[i - 1] == activator_views(b)[i]);
            }
        }
        assert(activator_views(a) =~= activator_views(b));
    }
}

proof fn lemma_scope_bytes_front(s: Seq<String>)
    requires
        s.len() > 0,
    ensures
        scope_bytes(s) == field_bytes(s[0]@) + scope_bytes(s.drop_first()),
    decreases s.len(),
{
    if s.len() > 1 {
        lemma_scope_bytes_front(s.drop_last());
        assert(s.drop_last().drop_first() =~= s.drop_first().drop_last());
        assert(s.drop_last()[0] == s[0]);
        assert(s.drop_first().last() == s.last());
    } else {
        assert(s.drop_last() =~= Seq::<String>::empty());
        assert(s.drop_first() =~= Seq::<String>::empty());
    }
}

proof fn lemma_scopes_decode(a: Seq<String>, b: Seq<String>, ra: Seq<u8>, rb: Seq<u8>)
    requires
        a.len() == b.len(),
        forall|i: int| 0 <= i < a.len() ==> fits(#[trigger] a[i]),
        forall|i: int| 0 <= i < b.len() ==> fits(#[trigger] b[i]),
        scope_bytes(a) + ra == scope_bytes(b) + rb,
    ensures
        views(a) == views(b),
        ra == rb,
    decreases a.len(),
{
    if a.len() == 0 {
        assert(views(a) =~= views(b));
    } else {
        lemma_scope_bytes_front(a);
        lemma_scope_bytes_front(b);
        let ta = scope_bytes(a.drop_first()) + ra;
        let tb = scope_bytes(b.drop_first()) + rb;
        assert(fits(a[0]) && fits(b[0]));
        assert(scope_bytes(a) + ra =~= field_bytes(a[0]@) + ta);
        assert(scope_bytes(b) + rb =~= field_bytes(b[0]@) + tb);
        lemma_field_decodes(a[0]@, b[0]@, ta, tb);
        assert forall|i: int| 0 <= i < a.drop_first().len() implies fits(#[trigger] a.drop_first()[i]) by {
            assert(a.drop_first()[i] == a[i + 1]);
        }
        assert forall|i: int| 0 <= i < b.drop_first().len() implies fits(#[trigger] b.drop_first()[i]) by {
            assert(b.drop_first()[i] == b[i + 1]);
        }
        lemma_scopes_decode(a.drop_first(), b.drop_first(), ra, rb);
        assert forall|i: int| 0 <= i < a.len() implies views(a)[i] == views(b)[i] by {
            if i > 0 {
                assert(views(a.drop_first())[i - 1] == views(a)[i]);
                assert(views(b.drop_first())[i - 1] == views(b)[i]);
            }
        }
        assert(views(a) =~= views(b));
    }
}

#[verifier::spinoff_prover]
#[verifier::rlimit(40)]
proof fn lemma_purpose_decodes(p: HumanPurpose, q: HumanPurpose, ra: Seq<u8>, rb: Seq<u8>)
    requires
        fits(p.statement) && fits(p.desired_consequence) && (p.actor matches Some(a) ==> fits(a)),
        fits(q.statement) && fits(q.desired_consequence) && (q.actor matches Some(a) ==> fits(a)),
        p.activators@.len() < pow256(8),
        q.activators@.len() < pow256(8),
        forall|i: int|
            0 <= i < p.activators@.len() ==> fits(#[trigger] p.activators@[i].name) && fits(
                p.activators@[i].value,
            ),
        forall|i: int|
            0 <= i < q.activators@.len() ==> fits(#[trigger] q.activators@[i].name) && fits(
                q.activators@[i].value,
            ),
        purpose_bytes(p) + ra == purpose_bytes(q) + rb,
    ensures
        p.statement@ == q.statement@,
        p.desired_consequence@ == q.desired_consequence@,
        actor_view(p.actor) == actor_view(q.actor),
        activator_views(p.activators@) == activator_views(q.activators@),
        ra == rb,
{
    let a4 = activator_bytes(p.activators@) + ra;
    let b4 = activator_bytes(q.activators@) + rb;
    let a3 = le8(p.activators@.len()) + a4;
    let b3 = le8(q.activators@.len()) + b4;
    let a2 = optional_bytes(p.actor) + a3;
    let b2 = optional_bytes(q.actor) + b3;
    let a1 = field_bytes(p.desired_consequence@) + a2;
    let b1 = field_bytes(q.desired_consequence@) + b2;
    let (fs, fd, fo, fl, fa) = (
        field_bytes(p.statement@),
        field_bytes(p.desired_consequence@),
        optional_bytes(p.actor),
        le8(p.activators@.len()),
        activator_bytes(p.activators@),
    );
    lemma_peel(fs + fd + fo + fl, fa, ra);
    lemma_peel(fs + fd + fo, fl, a4);
    lemma_peel(fs + fd, fo, a3);
    lemma_peel(fs, fd, a2);
    let (gs, gd, go, gl, ga) = (
        field_bytes(q.statement@),
        field_bytes(q.desired_consequence@),
        optional_bytes(q.actor),
        le8(q.activators@.len()),
        activator_bytes(q.activators@),
    );
    lemma_peel(gs + gd + go + gl, ga, rb);
    lemma_peel(gs + gd + go, gl, b4);
    lemma_peel(gs + gd, go, b3);
    lemma_peel(gs, gd, b2);
    assert(purpose_bytes(p) + ra == field_bytes(p.statement@) + a1);
    assert(purpose_bytes(q) + rb == field_bytes(q.statement@) + b1);
    lemma_field_decodes(p.statement@, q.statement@, a1, b1);
    lemma_field_decodes(p.desired_consequence@, q.desired_consequence@, a2, b2);
    lemma_optional_decodes(p.actor, q.actor, a3, b3);
    lemma_le8_decodes(p.activators@.len(), q.activators@.len(), a4, b4);
    assert(forall|i: int| 0 <= i < p.activators@.len() ==> fits(#[trigger] p.activators@[i].name) && fits(p.activators@[i].value));
    assert(forall|i: int| 0 <= i < q.activators@.len() ==> fits(#[trigger] q.activators@[i].name) && fits(q.activators@[i].value));
    lemma_activators_decode(p.activators@, q.activators@, ra, rb);
}

proof fn lemma_genesis_decodes(g: GenesisWorld, h: GenesisWorld, ra: Seq<u8>, rb: Seq<u8>)
    requires
        fits(g.ontology_rdf) && fits(g.construct_query) && fits(g.hddl.domain) && fits(g.hddl.problem)
            && fits(g.hddl.root_task) && (g.ppddl matches Some(pp) ==> fits(pp.domain) && fits(
            pp.problem,
        )),
        fits(h.ontology_rdf) && fits(h.construct_query) && fits(h.hddl.domain) && fits(h.hddl.problem)
            && fits(h.hddl.root_task) && (h.ppddl matches Some(pp) ==> fits(pp.domain) && fits(
            pp.problem,
        )),
        genesis_bytes(g) + ra == genesis_bytes(h) + rb,
    ensures
        g.ontology_rdf@ == h.ontology_rdf@,
        g.construct_query@ == h.construct_query@,
        g.hddl.domain@ == h.hddl.domain@,
        g.hddl.problem@ == h.hddl.problem@,
        g.hddl.root_task@ == h.hddl.root_task@,
        ppddl_view(g.ppddl) == ppddl_view(h.ppddl),
        ra == rb,
{
    let pg = match g.ppddl {
        Some(p) => tag(1) + field_bytes(p.domain@) + field_bytes(p.problem@),
        None => tag(0),
    };
    let ph = match h.ppddl {
        Some(p) => tag(1) + field_bytes(p.domain@) + field_bytes(p.problem@),
        None => tag(0),
    };
    let a5 = pg + ra;
    let b5 = ph + rb;
    let a4 = field_bytes(g.hddl.root_task@) + a5;
    let b4 = field_bytes(h.hddl.root_task@) + b5;
    let a3 = field_bytes(g.hddl.problem@) + a4;
    let b3 = field_bytes(h.hddl.problem@) + b4;
    let a2 = field_bytes(g.hddl.domain@) + a3;
    let b2 = field_bytes(h.hddl.domain@) + b3;
    let a1 = field_bytes(g.construct_query@) + a2;
    let b1 = field_bytes(h.construct_query@) + b2;
    let (x1, x2, x3, x4, x5) = (
        field_bytes(g.ontology_rdf@),
        field_bytes(g.construct_query@),
        field_bytes(g.hddl.domain@),
        field_bytes(g.hddl.problem@),
        field_bytes(g.hddl.root_task@),
    );
    assert(genesis_bytes(g) == x1 + x2 + x3 + x4 + x5 + pg);
    lemma_peel(x1 + x2 + x3 + x4 + x5, pg, ra);
    lemma_peel(x1 + x2 + x3 + x4, x5, a5);
    lemma_peel(x1 + x2 + x3, x4, a4);
    lemma_peel(x1 + x2, x3, a3);
    lemma_peel(x1, x2, a2);
    let (y1, y2, y3, y4, y5) = (
        field_bytes(h.ontology_rdf@),
        field_bytes(h.construct_query@),
        field_bytes(h.hddl.domain@),
        field_bytes(h.hddl.problem@),
        field_bytes(h.hddl.root_task@),
    );
    assert(genesis_bytes(h) == y1 + y2 + y3 + y4 + y5 + ph);
    lemma_peel(y1 + y2 + y3 + y4 + y5, ph, rb);
    lemma_peel(y1 + y2 + y3 + y4, y5, b5);
    lemma_peel(y1 + y2 + y3, y4, b4);
    lemma_peel(y1 + y2, y3, b3);
    lemma_peel(y1, y2, b2);
    assert(genesis_bytes(g) + ra == x1 + a1);
    assert(genesis_bytes(h) + rb == y1 + b1);
    lemma_field_decodes(g.ontology_rdf@, h.ontology_rdf@, a1, b1);
    lemma_field_decodes(g.construct_query@, h.construct_query@, a2, b2);
    lemma_field_decodes(g.hddl.domain@, h.hddl.domain@, a3, b3);
    lemma_field_decodes(g.hddl.problem@, h.hddl.problem@, a4, b4);
    lemma_field_decodes(g.hddl.root_task@, h.hddl.root_task@, a5, b5);
    match (g.ppddl, h.ppddl) {
        (Some(x), Some(y)) => {
            let ax = field_bytes(x.problem@) + ra;
            let by = field_bytes(y.problem@) + rb;
            lemma_peel(tag(1) + field_bytes(x.domain@), field_bytes(x.problem@), ra);
            lemma_peel(tag(1), field_bytes(x.domain@), ax);
            lemma_peel(tag(1) + field_bytes(y.domain@), field_bytes(y.problem@), rb);
            lemma_peel(tag(1), field_bytes(y.domain@), by);
            lemma_tag_decodes(1, 1, field_bytes(x.domain@) + ax, field_bytes(y.domain@) + by);
            lemma_field_decodes(x.domain@, y.domain@, ax, by);
            lemma_field_decodes(x.problem@, y.problem@, ra, rb);
        },
        (Some(x), None) => {
            let ax = field_bytes(x.problem@) + ra;
            lemma_peel(tag(1) + field_bytes(x.domain@), field_bytes(x.problem@), ra);
            lemma_peel(tag(1), field_bytes(x.domain@), ax);
            lemma_tag_decodes(1, 0, field_bytes(x.domain@) + ax, rb);
        },
        (None, Some(y)) => {
            let by = field_bytes(y.problem@) + rb;
            lemma_peel(tag(1) + field_bytes(y.domain@), field_bytes(y.problem@), rb);
            lemma_peel(tag(1), field_bytes(y.domain@), by);
            lemma_tag_decodes(0, 1, ra, field_bytes(y.domain@) + by);
        },
        (None, None) => {
            lemma_tag_decodes(0, 0, ra, rb);
        },
    }
}

proof fn lemma_target_decodes(
    m: ManufactureTarget,
    c: CapabilityTarget,
    n: ManufactureTarget,
    d: CapabilityTarget,
    ra: Seq<u8>,
    rb: Seq<u8>,
)
    requires
        fits(m.name) && fits(m.template) && fits(m.artifact_kind) && fits(m.output),
        fits(n.name) && fits(n.template) && fits(n.artifact_kind) && fits(n.output),
        fits(c.capability) && fits(c.route) && c.authority_scopes@.len() < pow256(8),
        fits(d.capability) && fits(d.route) && d.authority_scopes@.len() < pow256(8),
        forall|i: int| 0 <= i < c.authority_scopes@.len() ==> fits(#[trigger] c.authority_scopes@[i]),
        forall|i: int| 0 <= i < d.authority_scopes@.len() ==> fits(#[trigger] d.authority_scopes@[i]),
        target_bytes(m, c) + ra == target_bytes(n, d) + rb,
    ensures
        m.name@ == n.name@,
        m.template@ == n.template@,
        m.artifact_kind@ == n.artifact_kind@,
        m.output@ == n.output@,
        c.capability@ == d.capability@,
        c.route@ == d.route@,
        views(c.authority_scopes@) == views(d.authority_scopes@),
        ra == rb,
{
    let a7 = scope_bytes(c.authority_scopes@) + ra;
    let b7 = scope_bytes(d.authority_scopes@) + rb;
    let a6 = le8(c.authority_scopes@.len()) + a7;
    let b6 = le8(d.authority_scopes@.len()) + b7;
    let a5 = field_bytes(c.route@) + a6;
    let b5 = field_bytes(d.route@) + b6;
    let a4 = field_bytes(c.capability@) + a5;
    let b4 = field_bytes(d.capability@) + b5;
    let a3 = field_bytes(m.output@) + a4;
    let b3 = field_bytes(n.output@) + b4;
    let a2 = field_bytes(m.artifact_kind@) + a3;
    let b2 = field_bytes(n.artifact_kind@) + b3;
    let a1 = field_bytes(m.template@) + a2;
    let b1 = field_bytes(n.template@) + b2;
    let (x1, x2, x3, x4, x5, x6, x7, x8) = (
        field_bytes(m.name@),
        field_bytes(m.template@),
        field_bytes(m.artifact_kind@),
        field_bytes(m.output@),
        field_bytes(c.capability@),
        field_bytes(c.route@),
        le8(c.authority_scopes@.len()),
        scope_bytes(c.authority_scopes@),
    );
    assert(target_bytes(m, c) == x1 + x2 + x3 + x4 + x5 + x6 + x7 + x8);
    lemma_peel(x1 + x2 + x3 + x4 + x5 + x6 + x7, x8, ra);
    lemma_peel(x1 + x2 + x3 + x4 + x5 + x6, x7, a7);
    lemma_peel(x1 + x2 + x3 + x4 + x5, x6, a6);
    lemma_peel(x1 + x2 + x3 + x4, x5, a5);
    lemma_peel(x1 + x2 + x3, x4, a4);
    lemma_peel(x1 + x2, x3, a3);
    lemma_peel(x1, x2, a2);
    let (y1, y2, y3, y4, y5, y6, y7, y8) = (
        field_bytes(n.name@),
        field_bytes(n.template@),
        field_bytes(n.artifact_kind@),
        field_bytes(n.output@),
        field_bytes(d.capability@),
        field_bytes(d.route@),
        le8(d.authority_scopes@.len()),
        scope_bytes(d.authority_scopes@),
    );
    assert(target_bytes(n, d) == y1 + y2 + y3 + y4 + y5 + y6 + y7 + y8);
    lemma_peel(y1 + y2 + y3 + y4 + y5 + y6 + y7, y8, rb);
    lemma_peel(y1 + y2 + y3 + y4 + y5 + y6, y7, b7);
    lemma_peel(y1 + y2 + y3 + y4 + y5, y6, b6);
    lemma_peel(y1 + y2 + y3 + y4, y5, b5);
    lemma_peel(y1 + y2 + y3, y4, b4);
    lemma_peel(y1 + y2, y3, b3);
    lemma_peel(y1, y2, b2);
    assert(target_bytes(m, c) + ra == x1 + a1);
    assert(target_bytes(n, d) + rb == y1 + b1);
    lemma_field_decodes(m.name@, n.name@, a1, b1);
    lemma_field_decodes(m.template@, n.template@, a2, b2);
    lemma_field_decodes(m.artifact_kind@, n.artifact_kind@, a3, b3);
    lemma_field_decodes(m.output@, n.output@, a4, b4);
    lemma_field_decodes(c.capability@, d.capability@, a5, b5);
    lemma_field_decodes(c.route@, d.route@, a6, b6);
    lemma_le8_decodes(c.authority_scopes@.len(), d.authority_scopes@.len(), a7, b7);
    lemma_scopes_decode(c.authority_scopes@, d.authority_scopes@, ra, rb);
}

/// The closure identity binds every field of a request: two requests with
/// the same hashed preimage say the same in every field. (That equal
/// identities come only from equal preimages is BLAKE3's collision
/// resistance, which no proof here covers.)
#[verifier::spinoff_prover]
#[verifier::rlimit(40)]
pub proof fn law_closure_preimage_binds_every_field(a: EveRequest, b: EveRequest)
    requires
        request_fits(a),
        request_fits(b),
        closure_preimage(a) == closure_preimage(b),
    ensures
        same_request(a, b),
{
    let ta = target_bytes(a.manufacture, a.capability);
    let tb = target_bytes(b.manufacture, b.capability);
    let ga = genesis_bytes(a.genesis) + ta;
    let gb = genesis_bytes(b.genesis) + tb;
    let pa = purpose_bytes(a.purpose) + ga;
    let pb = purpose_bytes(b.purpose) + gb;
    let pre = field_bytes(EVE_PROTOCOL@);
    lemma_peel(pre + purpose_bytes(a.purpose), genesis_bytes(a.genesis), ta);
    lemma_peel(pre, purpose_bytes(a.purpose), ga);
    lemma_peel(pre + purpose_bytes(b.purpose), genesis_bytes(b.genesis), tb);
    lemma_peel(pre, purpose_bytes(b.purpose), gb);
    assert(closure_preimage(a) == pre + pa);
    assert(closure_preimage(b) == pre + pb);
    assert(pa =~= pb) by {
        assert((pre + pa).skip(pre.len() as int) =~= pa);
        assert((pre + pb).skip(pre.len() as int) =~= pb);
    }
    lemma_purpose_decodes(a.purpose, b.purpose, ga, gb);
    lemma_genesis_decodes(a.genesis, b.genesis, ta, tb);
    assert(ta + seq![] =~= ta);
    assert(tb + seq![] =~= tb);
    lemma_target_decodes(a.manufacture, a.capability, b.manufacture, b.capability, seq![], seq![]);
}

proof fn lemma_activator_bytes_by_views(a: Seq<Activator>, b: Seq<Activator>)
    requires
        activator_views(a) == activator_views(b),
    ensures
        activator_bytes(a) == activator_bytes(b),
    decreases a.len(),
{
    assert(activator_views(a).len() == a.len() && activator_views(b).len() == b.len());
    if a.len() > 0 {
        assert(activator_views(a.drop_last()) =~= activator_views(a).drop_last());
        assert(activator_views(b.drop_last()) =~= activator_views(b).drop_last());
        lemma_activator_bytes_by_views(a.drop_last(), b.drop_last());
        assert(activator_views(a)[a.len() - 1] == activator_views(b)[a.len() - 1]);
    }
}

proof fn lemma_scope_bytes_by_views(a: Seq<String>, b: Seq<String>)
    requires
        views(a) == views(b),
    ensures
        scope_bytes(a) == scope_bytes(b),
    decreases a.len(),
{
    assert(views(a).len() == a.len() && views(b).len() == b.len());
    if a.len() > 0 {
        assert(views(a.drop_last()) =~= views(a).drop_last());
        assert(views(b.drop_last()) =~= views(b).drop_last());
        lemma_scope_bytes_by_views(a.drop_last(), b.drop_last());
        assert(views(a)[a.len() - 1] == views(b)[a.len() - 1]);
    }
}

/// Requests that say the same in every field have the same preimage.
proof fn lemma_same_request_same_preimage(a: EveRequest, b: EveRequest)
    requires
        same_request(a, b),
    ensures
        closure_preimage(a) == closure_preimage(b),
{
    lemma_activator_bytes_by_views(a.purpose.activators@, b.purpose.activators@);
    lemma_scope_bytes_by_views(a.capability.authority_scopes@, b.capability.authority_scopes@);
    assert(a.purpose.activators@.len() == activator_views(a.purpose.activators@).len());
    assert(b.purpose.activators@.len() == activator_views(b.purpose.activators@).len());
    assert(a.capability.authority_scopes@.len() == views(a.capability.authority_scopes@).len());
    assert(b.capability.authority_scopes@.len() == views(b.capability.authority_scopes@).len());
    assert(optional_bytes(a.purpose.actor) == optional_bytes(b.purpose.actor));
    assert(genesis_bytes(a.genesis) == genesis_bytes(b.genesis));
    assert(purpose_bytes(a.purpose) == purpose_bytes(b.purpose));
    assert(target_bytes(a.manufacture, a.capability) == target_bytes(b.manufacture, b.capability));
}

/// One identity per request: a handoff's identity is `eve:` and the BLAKE3
/// hex of the request's preimage, shared by its ggen and MCP+ parts, whose
/// authority flags are fixed. Requests that say the same get the same
/// identity; requests that differ in any field have different preimages,
/// so their identities differ unless BLAKE3 collides (which no proof here
/// covers).
pub proof fn law_one_identity_per_request(
    a: EveRequest,
    b: EveRequest,
    ha: EveHandoff,
    hb: EveHandoff,
)
    requires
        request_fits(a),
        request_fits(b),
        enter_answer(a, Ok(ha)),
        enter_answer(b, Ok(hb)),
    ensures
        ha.closure_id@ == "eve:"@ + blake3_hex(closure_preimage(a)),
        ha.ggen.closure_id@ == ha.closure_id@,
        ha.mcp_plus.closure_id@ == ha.closure_id@,
        ha.ggen.candidate_only && !ha.mcp_plus.ambient_authority && ha.mcp_plus.brce_required,
        same_request(a, b) ==> ha.closure_id@ == hb.closure_id@,
        !same_request(a, b) ==> closure_preimage(a) != closure_preimage(b),
{
    if same_request(a, b) {
        lemma_same_request_same_preimage(a, b);
    }
    if closure_preimage(a) == closure_preimage(b) {
        law_closure_preimage_binds_every_field(a, b);
    }
}

} // verus!
