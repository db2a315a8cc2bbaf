//! In-memory fakes of the harness layers that the scheduler path touches: one
//! agent with one conversation.

use vstd::prelude::*;
use crate::script;
use crate::script::{clone_scripts, next_script_fn, CommandScript, ScriptSource};
use crate::service::ServiceError;
use crate::text::same_text;

verus! {

/// The identifier of the one agent.
pub open spec fn agent_uuid() -> Seq<char> {
    "00000000-0000-7000-8000-0000000000aa"@
}

/// The identifier of the one conversation.
pub open spec fn conversation_uuid() -> Seq<char> {
    "00000000-0000-7000-8000-0000000000cc"@
}

/// How an agent is known.
pub struct AgentRecord {
    pub id: String,
    pub slug: String,
    pub name: String,
}

/// How a conversation is known, and the head of its event log.
pub struct ConversationRecord {
    pub id: String,
    pub slug: String,
    pub name: String,
    pub latest_event_id: Option<String>,
}

impl AgentRecord {
    /// Whether a reference means this agent: by identifier or by slug.
    pub open spec fn answers_to(self, reference: Seq<char>) -> bool {
        reference == self.id@ || reference == self.slug@
    }

    /// Whether two records say the same.
    pub open spec fn same_as(self, other: AgentRecord) -> bool {
        self.id@ == other.id@ && self.slug@ == other.slug@ && self.name@ == other.name@
    }

    /// Copies the record.
    pub fn copy(&self) -> (r: AgentRecord)
        ensures
            r.same_as(*self),
    {
        AgentRecord { id: self.id.clone(), slug: self.slug.clone(), name: self.name.clone() }
    }
}

impl ConversationRecord {
    /// Whether a reference means this conversation: by identifier or by slug.
    pub open spec fn answers_to(self, reference: Seq<char>) -> bool {
        reference == self.id@ || reference == self.slug@
    }

    /// Whether two records say the same.
    pub open spec fn same_as(self, other: ConversationRecord) -> bool {
        &&& self.id@ == other.id@
        &&& self.slug@ == other.slug@
        &&& self.name@ == other.name@
        &&& match (self.latest_event_id, other.latest_event_id) {
            (Some(a), Some(b)) => a@ == b@,
            (None, None) => true,
            _ => false,
        }
    }

    /// Copies the record.
    pub fn copy(&self) -> (r: ConversationRecord)
        ensures
            r.same_as(*self),
    {
        ConversationRecord {
            id: self.id.clone(),
            slug: self.slug.clone(),
            name: self.name.clone(),
            latest_event_id: match &self.latest_event_id {
                Some(id) => Some(id.clone()),
                None => None,
            },
        }
    }
}

/// Where a sandbox belongs.
#[derive(Clone, Copy, Debug, PartialEq, Eq, Structural)]
pub enum SandboxScope {
    Agent,
}

/// What runs a sandbox.
#[derive(Clone, Copy, Debug, PartialEq, Eq, Structural)]
pub enum SandboxProvider {
    LocalProcess,
}

/// The harness an agent runs under.
#[derive(Clone, Copy, Debug, PartialEq, Eq, Structural)]
pub enum AgentHarnessKind {
    Basic,
}

/// The sandbox settings of an agent.
pub struct AgentSandboxConfig {
    pub scope: SandboxScope,
    pub image: Option<String>,
    pub provider: SandboxProvider,
    pub mounts: Vec<String>,
    pub enable_networking: bool,
}

/// The settings of an agent.
pub struct AgentConfig {
    pub instructions: Vec<String>,
    pub harness: AgentHarnessKind,
    /// Whether a TypeScript harness is set up.
    pub typescript: bool,
    pub enable_agent_tool_creation: bool,
    pub sandbox: AgentSandboxConfig,
    pub model: String,
    pub max_output_tokens: Option<u64>,
    pub max_tool_round_trips: Option<u64>,
    /// Whether tracing to Braintrust is set up.
    pub braintrust: bool,
}

/// The settings of a conversation.
pub struct ConversationConfig {
    pub sandbox_image: Option<String>,
    pub sandbox_provider: Option<SandboxProvider>,
    pub shell_program: Option<String>,
    pub mounts: Vec<String>,
    pub durable_file_systems: Vec<String>,
    pub sandbox_scope: Option<SandboxScope>,
}

/// The settings of the one agent.
pub fn fake_agent_config() -> (r: AgentConfig)
    ensures
        r.instructions@.len() == 0,
        r.harness == AgentHarnessKind::Basic,
        !r.typescript,
        !r.enable_agent_tool_creation,
        r.sandbox.scope == SandboxScope::Agent,
        r.sandbox.image matches Some(image) && image@ == "fake-image"@,
        r.sandbox.provider == SandboxProvider::LocalProcess,
        r.sandbox.mounts@.len() == 0,
        !r.sandbox.enable_networking,
        r.model@ == "fake-model"@,
        r.max_output_tokens is None,
        r.max_tool_round_trips == Some(4u64),
        !r.braintrust,
{
    AgentConfig {
        instructions: Vec::new(),
        harness: AgentHarnessKind::Basic,
        typescript: false,
        enable_agent_tool_creation: false,
        sandbox: AgentSandboxConfig {
            scope: SandboxScope::Agent,
            image: Some("fake-image".to_owned()),
            provider: SandboxProvider::LocalProcess,
            mounts: Vec::new(),
            enable_networking: false,
        },
        model: "fake-model".to_owned(),
        max_output_tokens: None,
        max_tool_round_trips: Some(4),
        braintrust: false,
    }
}

/// The harness: it knows one agent.
pub struct FakeHarness {
    pub agent: FakeAgent,
}

/// The agent: it has one conversation.
pub struct FakeAgent {
    pub record: AgentRecord,
    pub conversation: FakeConversation,
    pub scripts: Vec<CommandScript>,
}

/// The conversation that wakeups are sent to.
pub struct FakeConversation {
    pub record: ConversationRecord,
    pub scripts: Vec<CommandScript>,
}

/// A handle on the agent's artifacts and sandboxes.
pub struct FakeAgentHandle {
    pub record: AgentRecord,
    pub scripts_source: ScriptSource,
}

/// A handle on the conversation's artifacts and sandboxes.
pub struct FakeThreadHandle {
    pub record: ConversationRecord,
    pub scripts_source: ScriptSource,
}

impl FakeHarness {
    /// A harness whose sandboxes run `scripts`.
    pub fn new(scripts: Vec<CommandScript>) -> (r: Self)
        ensures
            r.agent.record.id@ == agent_uuid(),
            r.agent.record.slug@ == "agent"@,
            r.agent.record.name@ == "Agent"@,
            r.agent.conversation.record.id@ == conversation_uuid(),
            r.agent.conversation.record.slug@ == "conversation"@,
            r.agent.conversation.record.name@ == "Conversation"@,
            r.agent.conversation.record.latest_event_id is None,
            script::script_views(r.agent.scripts@) == script::script_views(scripts@),
            script::script_views(r.agent.conversation.scripts@) == script::script_views(scripts@),
    {
        let conversation = FakeConversation {
            record: ConversationRecord {
                id: "00000000-0000-7000-8000-0000000000cc".to_owned(),
                slug: "conversation".to_owned(),
                name: "Conversation".to_owned(),
                latest_event_id: None,
            },
            scripts: clone_scripts(&scripts),
        };
        let agent = FakeAgent {
            record: AgentRecord {
                id: "00000000-0000-7000-8000-0000000000aa".to_owned(),
                slug: "agent".to_owned(),
                name: "Agent".to_owned(),
            },
            conversation,
            scripts,
        };
        FakeHarness { agent }
    }

    /// The agent's identifier.
    pub fn agent_id(&self) -> (r: String)
        ensures
            r@ == self.agent.record.id@,
    {
        self.agent.record.id.clone()
    }

    /// The conversation's identifier.
    pub fn conversation_id(&self) -> (r: String)
        ensures
            r@ == self.agent.conversation.record.id@,
    {
        self.agent.conversation.record.id.clone()
    }

    /// The agents there are.
    pub fn list_agents(&self) -> (r: Vec<AgentRecord>)
        ensures
            r@.len() == 1,
            r@[0].same_as(self.agent.record),
    {
        let mut out: Vec<AgentRecord> = Vec::new();
        out.push(self.agent.record.copy());
        out
    }

    /// Looks the agent up, unless the fault strikes.
    pub fn get_agent(&self, fault: bool, agent_ref: &str) -> (r: Result<
        Option<&FakeAgent>,
        ServiceError,
    >)
        ensures
            match r {
                Ok(Some(agent)) => !fault && self.agent.record.answers_to(agent_ref@) && *agent
                    == self.agent,
                Ok(None) => !fault && !self.agent.record.answers_to(agent_ref@),
                Err(e) => fault && e == ServiceError::AgentLookupFailed,
            },
    {
        if fault {
            return Err(ServiceError::AgentLookupFailed);
        }
        if same_text(agent_ref, self.agent.record.id.as_str()) || same_text(
            agent_ref,
            self.agent.record.slug.as_str(),
        ) {
            Ok(Some(&self.agent))
        } else {
            Ok(None)
        }
    }
}

impl FakeAgent {
    /// A handle whose sandboxes run the scripts from the first on.
    pub fn exoharness_handle(&self) -> (r: FakeAgentHandle)
        ensures
            r.record.same_as(self.record),
            r.scripts_source@ == (script::SourceView {
                scripts: script::script_views(self.scripts@),
                cursor: 0,
            }),
    {
        FakeAgentHandle { record: self.record.copy(), scripts_source: next_script_fn(&self.scripts) }
    }

    /// The conversations there are.
    pub fn list_conversations(&self) -> (r: Vec<ConversationRecord>)
        ensures
            r@.len() == 1,
            r@[0].same_as(self.conversation.record),
    {
        let mut out: Vec<ConversationRecord> = Vec::new();
        out.push(self.conversation.record.copy());
        out
    }

    /// Looks the conversation up.
    pub fn get_conversation(&self, conversation_ref: &str) -> (r: Option<&FakeConversation>)
        ensures
            match r {
                Some(conversation) => self.conversation.record.answers_to(conversation_ref@)
                    && *conversation == self.conversation,
                None => !self.conversation.record.answers_to(conversation_ref@),
            },
    {
        if same_text(conversation_ref, self.conversation.record.id.as_str()) || same_text(
            conversation_ref,
            self.conversation.record.slug.as_str(),
        ) {
            Some(&self.conversation)
        } else {
            None
        }
    }
}

impl FakeConversation {
    /// A handle whose sandboxes run the scripts from the first on.
    pub fn exoharness_handle(&self) -> (r: FakeThreadHandle)
        ensures
            r.record.same_as(self.record),
            r.scripts_source@ == (script::SourceView {
                scripts: script::script_views(self.scripts@),
                cursor: 0,
            }),
    {
        FakeThreadHandle { record: self.record.copy(), scripts_source: next_script_fn(&self.scripts) }
    }

    /// The conversation's settings: it overrides none of the agent's.
    pub fn config(&self) -> (r: ConversationConfig)
        ensures
            r.sandbox_image is None,
            r.sandbox_provider is None,
            r.shell_program is None,
            r.mounts@.len() == 0,
            r.durable_file_systems@.len() == 0,
            r.sandbox_scope is None,
    {
        ConversationConfig {
            sandbox_image: None,
            sandbox_provider: None,
            shell_program: None,
            mounts: Vec::new(),
            durable_file_systems: Vec::new(),
            sandbox_scope: None,
        }
    }
}

/// The agent and the conversation of a new harness are found by the identifiers
/// it gives out, and neither answers to the other's.
pub proof fn law_given_identifiers_are_found(
    agent: AgentRecord,
    conversation: ConversationRecord,
)
    requires
        agent.id@ == agent_uuid(),
        agent.slug@ == "agent"@,
        conversation.id@ == conversation_uuid(),
        conversation.slug@ == "conversation"@,
    ensures
        agent.answers_to(agent.id@),
        agent.answers_to(agent.slug@),
        conversation.answers_to(conversation.id@),
        conversation.answers_to(conversation.slug@),
        !agent.answers_to(conversation.id@),
        !agent.answers_to(conversation.slug@),
        !conversation.answers_to(agent.id@),
        !conversation.answers_to(agent.slug@),
{
    reveal_strlit("00000000-0000-7000-8000-0000000000aa");
    reveal_strlit("00000000-0000-7000-8000-0000000000cc");
    reveal_strlit("agent");
    reveal_strlit("conversation");
    assert(agent_uuid()[35] == 'a');
    assert(conversation_uuid()[35] == 'c');
    assert(agent_uuid().len() == 36 && conversation_uuid().len() == 36);
    assert("agent"@.len() == 5 && "conversation"@.len() == 12);
}

/// A reference means an agent or a conversation exactly when it is its identifier
/// or its slug, to the letter; names mean nothing.
pub proof fn law_references_are_identifiers_or_slugs(
    agent: AgentRecord,
    conversation: ConversationRecord,
    reference: Seq<char>,
)
    ensures
        agent.answers_to(reference) <==> reference == agent.id@ || reference == agent.slug@,
        conversation.answers_to(reference) <==> reference == conversation.id@ || reference
            == conversation.slug@,
{
}

/// A copy of a record agrees with it in every field.
pub proof fn law_copies_agree(
    a: AgentRecord,
    b: AgentRecord,
    c: ConversationRecord,
    d: ConversationRecord,
)
    ensures
        a.same_as(b) <==> a.id@ == b.id@ && a.slug@ == b.slug@ && a.name@ == b.name@,
        c.same_as(d) ==> c.id@ == d.id@ && c.slug@ == d.slug@ && c.name@ == d.name@,
        c.same_as(d) ==> (c.latest_event_id is Some <==> d.latest_event_id is Some),
        c.same_as(d) && c.latest_event_id is Some ==> c.latest_event_id->0@ == d.latest_event_id->0@,
{
}

} // verus!
