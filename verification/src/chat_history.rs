//! The conversation sent with each request: the system prompt, the turns
//! of the current conversation, and the tool exchanges of the turn in
//! progress.
use vstd::prelude::*;
use crate::agent::{request_view, requests_spec, tool_requests, ToolRequest};
use crate::json::{items_view, Json, JsonView};
use crate::text::{chars_of, string_of};

verus! {

/// Who speaks a message.
#[derive(Clone, Copy, Debug, PartialEq, Eq)]
pub enum Role {
    System,
    User,
    Assistant,
    Tool,
}

/// The name of a role in the chat protocol.
pub open spec fn role_name_spec(r: Role) -> Seq<char> {
    match r {
        Role::System => "system"@,
        Role::User => "user"@,
        Role::Assistant => "assistant"@,
        Role::Tool => "tool"@,
    }
}

impl Role {
    /// The name of the role in the chat protocol.
    pub fn name(&self) -> (r: String)
        ensures
            r@ == role_name_spec(*self),
    {
        match self {
            Role::System => string_of(&chars_of("system")),
            Role::User => string_of(&chars_of("user")),
            Role::Assistant => string_of(&chars_of("assistant")),
            Role::Tool => string_of(&chars_of("tool")),
        }
    }
}

/// One message of the conversation.
#[derive(Debug)]
pub struct ChatMessage {
    pub role: Role,
    pub content: String,
    /// the tool calls of an assistant message
    pub tool_calls: Option<Vec<Json>>,
    /// the tool that a tool message answers for
    pub tool_name: Option<String>,
}

/// The mathematical form of a message.
pub struct MessageView {
    pub role: Role,
    pub content: Seq<char>,
    pub tool_calls: Option<Seq<JsonView>>,
    pub tool_name: Option<Seq<char>>,
}

impl View for ChatMessage {
    type V = MessageView;

    open spec fn view(&self) -> MessageView {
        MessageView {
            role: self.role,
            content: self.content@,
            tool_calls: match self.tool_calls {
                Some(c) => Some(items_view(c@)),
                None => None,
            },
            tool_name: match self.tool_name {
                Some(n) => Some(n@),
                None => None,
            },
        }
    }
}

/// A copy of a list of JSON values.
pub fn copy_jsons(v: &Vec<Json>) -> (r: Vec<Json>)
    ensures
        items_view(r@) == items_view(v@),
{
    let mut out: Vec<Json> = Vec::new();
    let mut i: usize = 0;
    while i < v.len()
        invariant
            i <= v.len(),
            out@.len() == i,
            forall|j: int| 0 <= j < i ==> (#[trigger] out@[j])@ == v@[j]@,
        decreases v.len() - i,
    {
        out.push(v[i].copy());
        i = i + 1;
    }
    proof {
        crate::json::lemma_items_view(out@);
        crate::json::lemma_items_view(v@);
        assert(items_view(out@) =~= items_view(v@));
    }
    out
}

impl ChatMessage {
    /// A copy of the message.
    pub fn copy(&self) -> (r: ChatMessage)
        ensures
            r@ == self@,
    {
        ChatMessage {
            role: self.role,
            content: self.content.clone(),
            tool_calls: match &self.tool_calls {
                Some(c) => Some(copy_jsons(c)),
                None => None,
            },
            tool_name: match &self.tool_name {
                Some(n) => Some(n.clone()),
                None => None,
            },
        }
    }
}

/// The answer of the model in one round: its text and the tools it calls.
#[derive(Debug)]
pub struct MessageResponse {
    pub content: String,
    pub tool_calls: Vec<Json>,
}

/// A message with no tool calls and no tool name.
pub open spec fn plain(role: Role, content: Seq<char>) -> MessageView {
    MessageView { role, content, tool_calls: None, tool_name: None }
}

/// The message of the system prompt.
pub open spec fn system_message(prompt: Seq<char>) -> MessageView {
    plain(Role::System, prompt)
}

/// The record of an answer of the model.
pub open spec fn assistant_message(content: Seq<char>, calls: Seq<JsonView>) -> MessageView {
    MessageView { role: Role::Assistant, content, tool_calls: Some(calls), tool_name: None }
}

/// The record of what a tool returned.
pub open spec fn tool_message(content: Seq<char>, name: Seq<char>) -> MessageView {
    MessageView { role: Role::Tool, content, tool_calls: None, tool_name: Some(name) }
}

pub open spec fn messages_view(v: Seq<ChatMessage>) -> Seq<MessageView> {
    v.map_values(|m: ChatMessage| m@)
}

/// The conversation sent with each request.
pub struct ChatHistory {
    history: Vec<ChatMessage>,
    tool_history: Vec<ChatMessage>,
    system_prompt: String,
}

/// The state of a conversation: the turns, the tool exchanges of the turn
/// in progress, and the system prompt.
pub struct HistoryView {
    pub turns: Seq<MessageView>,
    pub tools: Seq<MessageView>,
    pub prompt: Seq<char>,
}

/// A fresh conversation: only the system prompt.
pub open spec fn fresh(prompt: Seq<char>) -> HistoryView {
    HistoryView { turns: seq![system_message(prompt)], tools: seq![], prompt }
}

/// The conversation after a prompt of the user.
pub open spec fn after_user(h: HistoryView, prompt: Seq<char>) -> HistoryView {
    HistoryView { turns: h.turns.push(plain(Role::User, prompt)), tools: seq![], prompt: h.prompt }
}

/// The conversation after an answer of the model.
pub open spec fn after_assistant(h: HistoryView, content: Seq<char>, calls: Seq<JsonView>) -> HistoryView {
    let m = assistant_message(content, calls);
    if calls.len() > 0 {
        HistoryView { tools: h.tools.push(m), ..h }
    } else {
        HistoryView { turns: h.turns.push(m), ..h }
    }
}

/// The conversation after a tool returned.
pub open spec fn after_tool(h: HistoryView, content: Seq<char>, name: Seq<char>) -> HistoryView {
    HistoryView { tools: h.tools.push(tool_message(content, name)), ..h }
}

/// The conversation opens with its system prompt.
pub open spec fn led_by_prompt(h: HistoryView) -> bool {
    h.turns.len() > 0 && h.turns[0] == system_message(h.prompt)
}

/// Every conversation opens with its system prompt, and keeps it: a fresh
/// one does, and prompts, answers, tool results and clearing keep it there
/// with the prompt unchanged.
pub proof fn lemma_prompt_leads(
    h: HistoryView,
    prompt: Seq<char>,
    content: Seq<char>,
    calls: Seq<JsonView>,
    name: Seq<char>,
)
    requires
        led_by_prompt(h),
    ensures
        led_by_prompt(fresh(prompt)),
        led_by_prompt(after_user(h, prompt)) && after_user(h, prompt).prompt == h.prompt,
        led_by_prompt(after_assistant(h, content, calls)) && after_assistant(h, content, calls).prompt
            == h.prompt,
        led_by_prompt(after_tool(h, content, name)) && after_tool(h, content, name).prompt == h.prompt,
        led_by_prompt(fresh(h.prompt)),
{
}

impl View for ChatHistory {
    type V = HistoryView;

    closed spec fn view(&self) -> HistoryView {
        HistoryView {
            turns: messages_view(self.history@),
            tools: messages_view(self.tool_history@),
            prompt: self.system_prompt@,
        }
    }
}

fn message(role: Role, content: &str) -> (r: ChatMessage)
    ensures
        r@ == plain(role, content@),
{
    ChatMessage {
        role,
        content: string_of(&chars_of(content)),
        tool_calls: None,
        tool_name: None,
    }
}

impl ChatHistory {
    /// A conversation that holds only the system prompt.
    pub fn new(system_prompt: &str) -> (r: ChatHistory)
        ensures
            r@ == fresh(system_prompt@),
    {
        let mut history: Vec<ChatMessage> = Vec::new();
        history.push(message(Role::System, system_prompt));
        let r = ChatHistory {
            history,
            tool_history: Vec::new(),
            system_prompt: string_of(&chars_of(system_prompt)),
        };
        assert(r@.turns =~= seq![system_message(system_prompt@)]);
        assert(r@.tools =~= Seq::<MessageView>::empty());
        r
    }

    /// A new prompt of the user: it opens a turn, so the tool exchanges of
    /// the last turn are dropped.
    pub fn user(&mut self, prompt: &str)
        ensures
            final(self)@ == after_user(old(self)@, prompt@),
    {
        self.tool_history.clear();
        let ghost before = messages_view(self.history@);
        self.history.push(message(Role::User, prompt));
        assert(messages_view(self.history@) =~= before.push(plain(Role::User, prompt@)));
        assert(messages_view(self.tool_history@) =~= Seq::<MessageView>::empty());
    }

    /// An answer of the model: one that calls tools joins the tool
    /// exchanges of the turn, any other joins the turns.
    pub fn assistant(&mut self, response: &MessageResponse)
        ensures
            final(self)@ == after_assistant(old(self)@, response.content@, items_view(response.tool_calls@)),
    {
        let entry = ChatMessage {
            role: Role::Assistant,
            content: response.content.clone(),
            tool_calls: Some(copy_jsons(&response.tool_calls)),
            tool_name: None,
        };
        if response.tool_calls.len() > 0 {
            let ghost before = messages_view(self.tool_history@);
            self.tool_history.push(entry);
            assert(messages_view(self.tool_history@) =~= before.push(entry@));
        } else {
            let ghost before = messages_view(self.history@);
            self.history.push(entry);
            assert(messages_view(self.history@) =~= before.push(entry@));
        }
    }

    /// Records an answer of the model and says what follows: `None` when it
    /// called no tool, which ends the turn, else the tool runs it asks for,
    /// in order.
    pub fn record_answer(&mut self, response: &MessageResponse) -> (r: Option<Vec<ToolRequest>>)
        ensures
            final(self)@ == after_assistant(old(self)@, response.content@, items_view(response.tool_calls@)),
            match requests_spec(items_view(response.tool_calls@)) {
                None => r is None,
                Some(rs) => r matches Some(v) && v@.map_values(|x: ToolRequest| request_view(x)) == rs,
            },
    {
        self.assistant(response);
        tool_requests(response)
    }

    /// What a tool returned joins the tool exchanges of the turn.
    pub fn tool(&mut self, content: &str, tool_name: &str, _id: Option<Json>)
        ensures
            final(self)@ == after_tool(old(self)@, content@, tool_name@),
    {
        let entry = ChatMessage {
            role: Role::Tool,
            content: string_of(&chars_of(content)),
            tool_calls: None,
            tool_name: Some(string_of(&chars_of(tool_name))),
        };
        let ghost before = messages_view(self.tool_history@);
        self.tool_history.push(entry);
        assert(messages_view(self.tool_history@) =~= before.push(tool_message(content@, tool_name@)));
    }

    /// The messages to send: the turns, then the tool exchanges.
    pub fn get(&self) -> (r: Vec<ChatMessage>)
        ensures
            messages_view(r@) == self@.turns + self@.tools,
    {
        let mut out: Vec<ChatMessage> = Vec::new();
        let mut i: usize = 0;
        while i < self.history.len()
            invariant
                i <= self.history.len(),
                messages_view(out@) == messages_view(self.history@).take(i as int),
            decreases self.history.len() - i,
        {
            let ghost before = messages_view(out@);
            out.push(self.history[i].copy());
            assert(messages_view(out@) =~= before.push(self.history@[i as int]@));
            assert(messages_view(self.history@).take(i + 1) =~= messages_view(self.history@).take(
                i as int,
            ).push(self.history@[i as int]@));
            i = i + 1;
        }
        assert(messages_view(self.history@).take(self.history.len() as int) =~= messages_view(
            self.history@,
        ));
        let mut j: usize = 0;
        while j < self.tool_history.len()
            invariant
                j <= self.tool_history.len(),
                messages_view(out@) == messages_view(self.history@) + messages_view(
                    self.tool_history@,
                ).take(j as int),
            decreases self.tool_history.len() - j,
        {
            let ghost before = messages_view(out@);
            out.push(self.tool_history[j].copy());
            assert(messages_view(out@) =~= before.push(self.tool_history@[j as int]@));
            assert(messages_view(self.tool_history@).take(j + 1) =~= messages_view(
                self.tool_history@,
            ).take(j as int).push(self.tool_history@[j as int]@));
            assert(messages_view(out@) =~= messages_view(self.history@) + messages_view(
                self.tool_history@,
            ).take(j + 1));
            j = j + 1;
        }
        assert(messages_view(self.tool_history@).take(self.tool_history.len() as int)
            =~= messages_view(self.tool_history@));
        out
    }

    /// Back to a fresh conversation with the same system prompt.
    pub fn clear(&mut self)
        ensures
            final(self)@ == fresh(old(self)@.prompt),
    {
        self.history.clear();
        let p = self.system_prompt.clone();
        self.history.push(message(Role::System, p.as_str()));
        self.tool_history.clear();
        assert(messages_view(self.history@) =~= seq![system_message(old(self)@.prompt)]);
        assert(messages_view(self.tool_history@) =~= Seq::<MessageView>::empty());
    }
}

} // verus!
