//! The request shape sent to the upstream provider, and its JSON form.

use vstd::prelude::*;

use crate::outside::push_char;

verus! {

pub struct UserInputMessage {
    pub content: String,
    pub model_id: String,
    pub origin: Option<String>,
}

impl UserInputMessage {
    pub fn new(content: &str, model_id: &str) -> (r: Self)
        ensures
            r.content@ == content@,
            r.model_id@ == model_id@,
            r.origin is None,
    {
        UserInputMessage {
            content: String::from_str(content),
            model_id: String::from_str(model_id),
            origin: None,
        }
    }

    pub fn with_origin(self, origin: &str) -> (r: Self)
        ensures
            r.content == self.content,
            r.model_id == self.model_id,
            r.origin matches Some(o) && o@ == origin@,
    {
        UserInputMessage {
            content: self.content,
            model_id: self.model_id,
            origin: Some(String::from_str(origin)),
        }
    }
}

pub struct CurrentMessage {
    pub user_input_message: UserInputMessage,
}

impl CurrentMessage {
    pub fn new(user_input_message: UserInputMessage) -> (r: Self)
        ensures
            r.user_input_message == user_input_message,
    {
        CurrentMessage { user_input_message }
    }
}

pub struct ConversationState {
    pub conversation_id: String,
    pub agent_task_type: Option<String>,
    pub chat_trigger_type: Option<String>,
    pub current_message: CurrentMessage,
}

impl ConversationState {
    pub fn new(conversation_id: &str) -> (r: Self)
        ensures
            r.conversation_id@ == conversation_id@,
            r.agent_task_type is None,
            r.chat_trigger_type is None,
            r.current_message.user_input_message.content@ == Seq::<char>::empty(),
            r.current_message.user_input_message.model_id@ == Seq::<char>::empty(),
    {
        ConversationState {
            conversation_id: String::from_str(conversation_id),
            agent_task_type: None,
            chat_trigger_type: None,
            current_message: CurrentMessage {
                user_input_message: UserInputMessage {
                    content: String::new(),
                    model_id: String::new(),
                    origin: None,
                },
            },
        }
    }

    pub fn with_agent_task_type(self, t: &str) -> (r: Self)
        ensures
            r.conversation_id == self.conversation_id,
            r.agent_task_type matches Some(x) && x@ == t@,
            r.chat_trigger_type == self.chat_trigger_type,
            r.current_message == self.current_message,
    {
        ConversationState {
            conversation_id: self.conversation_id,
            agent_task_type: Some(String::from_str(t)),
            chat_trigger_type: self.chat_trigger_type,
            current_message: self.current_message,
        }
    }

    pub fn with_chat_trigger_type(self, t: &str) -> (r: Self)
        ensures
            r.conversation_id == self.conversation_id,
            r.agent_task_type == self.agent_task_type,
            r.chat_trigger_type matches Some(x) && x@ == t@,
            r.current_message == self.current_message,
    {
        ConversationState {
            conversation_id: self.conversation_id,
            agent_task_type: self.agent_task_type,
            chat_trigger_type: Some(String::from_str(t)),
            current_message: self.current_message,
        }
    }

    pub fn with_current_message(self, current_message: CurrentMessage) -> (r: Self)
        ensures
            r.conversation_id == self.conversation_id,
            r.agent_task_type == self.agent_task_type,
            r.chat_trigger_type == self.chat_trigger_type,
            r.current_message == current_message,
    {
        ConversationState {
            conversation_id: self.conversation_id,
            agent_task_type: self.agent_task_type,
            chat_trigger_type: self.chat_trigger_type,
            current_message,
        }
    }
}

pub struct KiroRequest {
    pub conversation_state: ConversationState,
    pub profile_arn: Option<String>,
}

/// A character's appearance inside a JSON string literal.
pub open spec fn spec_escape_char(c: char) -> Seq<char> {
    if c == '"' {
        seq!['\\', '"']
    } else if c == '\\' {
        seq!['\\', '\\']
    } else if c == '\n' {
        seq!['\\', 'n']
    } else if c == '\r' {
        seq!['\\', 'r']
    } else if c == '\t' {
        seq!['\\', 't']
    } else if (c as u32) < 32 {
        seq!['\\', 'u', '0', '0', hex_char((c as u32) as int / 16), hex_char((c as u32) as int % 16)]
    } else {
        seq![c]
    }
}

pub open spec fn hex_char(v: int) -> char {
    if v == 0 {
        '0'
    } else if v == 1 {
        '1'
    } else if v == 2 {
        '2'
    } else if v == 3 {
        '3'
    } else if v == 4 {
        '4'
    } else if v == 5 {
        '5'
    } else if v == 6 {
        '6'
    } else if v == 7 {
        '7'
    } else if v == 8 {
        '8'
    } else if v == 9 {
        '9'
    } else if v == 10 {
        'a'
    } else if v == 11 {
        'b'
    } else if v == 12 {
        'c'
    } else if v == 13 {
        'd'
    } else if v == 14 {
        'e'
    } else {
        'f'
    }
}

pub open spec fn spec_escape_chars(s: Seq<char>) -> Seq<char>
    decreases s.len(),
{
    if s.len() == 0 {
        Seq::empty()
    } else {
        spec_escape_chars(s.drop_last()) + spec_escape_char(s.last())
    }
}

/// A JSON string literal: the escaped characters between quotes.
pub open spec fn spec_json_str(s: Seq<char>) -> Seq<char> {
    seq!['"'] + spec_escape_chars(s) + seq!['"']
}

/// The JSON form of a request, compact, fields in declaration order,
/// absent options left out.
pub open spec fn spec_kiro_json(r: KiroRequest) -> Seq<char> {
    "{\"conversationState\":{\"conversationId\":"@ + spec_json_str(
        r.conversation_state.conversation_id@,
    ) + (match r.conversation_state.agent_task_type {
        Some(t) => ",\"agentTaskType\":"@ + spec_json_str(t@),
        None => Seq::<char>::empty(),
    }) + (match r.conversation_state.chat_trigger_type {
        Some(t) => ",\"chatTriggerType\":"@ + spec_json_str(t@),
        None => Seq::<char>::empty(),
    }) + ",\"currentMessage\":{\"userInputMessage\":{\"content\":"@ + spec_json_str(
        r.conversation_state.current_message.user_input_message.content@,
    ) + ",\"modelId\":"@ + spec_json_str(
        r.conversation_state.current_message.user_input_message.model_id@,
    ) + (match r.conversation_state.current_message.user_input_message.origin {
        Some(o) => ",\"origin\":"@ + spec_json_str(o@),
        None => Seq::<char>::empty(),
    }) + ",\"userInputMessageContext\":{}}}}"@ + (match r.profile_arn {
        Some(a) => ",\"profileArn\":"@ + spec_json_str(a@),
        None => Seq::<char>::empty(),
    }) + "}"@
}

/// Escapes a string for a JSON literal, character by character.
fn escape_chars(s: &str) -> (r: String)
    ensures
        r@ == spec_escape_chars(s@),
{
    let n = s.unicode_len();
    let mut out = String::new();
    let mut i: usize = 0;
    while i < n
        invariant
            n == s@.len(),
            i <= n,
            out@ == spec_escape_chars(s@.subrange(0, i as int)),
        decreases n - i,
    {
        let c = s.get_char(i);
        if c == '"' {
            push_char(&mut out, '\\');
            push_char(&mut out, '"');
        } else if c == '\\' {
            push_char(&mut out, '\\');
            push_char(&mut out, '\\');
        } else if c == '\n' {
            push_char(&mut out, '\\');
            push_char(&mut out, 'n');
        } else if c == '\r' {
            push_char(&mut out, '\\');
            push_char(&mut out, 'r');
        } else if c == '\t' {
            push_char(&mut out, '\\');
            push_char(&mut out, 't');
        } else if (c as u32) < 32 {
            push_char(&mut out, '\\');
            push_char(&mut out, 'u');
            push_char(&mut out, '0');
            push_char(&mut out, '0');
            push_char(&mut out, hex_char_exec(((c as u32) / 16) as u8));
            push_char(&mut out, hex_char_exec(((c as u32) % 16) as u8));
        } else {
            push_char(&mut out, c);
        }
        proof {
            assert(s@.subrange(0, i + 1).drop_last() =~= s@.subrange(0, i as int));
            assert(s@.subrange(0, i + 1).last() == s@[i as int]);
            assert(out@ =~= spec_escape_chars(s@.subrange(0, i as int)) + spec_escape_char(
                s@[i as int],
            ));
        }
        i = i + 1;
    }
    proof {
        assert(s@.subrange(0, n as int) =~= s@);
    }
    out
}

fn hex_char_exec(v: u8) -> (r: char)
    requires
        v < 16,
    ensures
        r == hex_char(v as int),
{
    if v == 0 {
        '0'
    } else if v == 1 {
        '1'
    } else if v == 2 {
        '2'
    } else if v == 3 {
        '3'
    } else if v == 4 {
        '4'
    } else if v == 5 {
        '5'
    } else if v == 6 {
        '6'
    } else if v == 7 {
        '7'
    } else if v == 8 {
        '8'
    } else if v == 9 {
        '9'
    } else if v == 10 {
        'a'
    } else if v == 11 {
        'b'
    } else if v == 12 {
        'c'
    } else if v == 13 {
        'd'
    } else if v == 14 {
        'e'
    } else {
        'f'
    }
}

/// Appends a JSON string literal for `s`.
fn append_json_str(out: &mut String, s: &str)
    ensures
        final(out)@ == old(out)@ + spec_json_str(s@),
{
    push_char(out, '"');
    let esc = escape_chars(s);
    out.append(esc.as_str());
    push_char(out, '"');
    proof {
        assert(final(out)@ =~= old(out)@ + spec_json_str(s@));
    }
}

impl KiroRequest {
    pub fn new(conversation_state: ConversationState) -> (r: Self)
        ensures
            r.conversation_state == conversation_state,
            r.profile_arn is None,
    {
        KiroRequest { conversation_state, profile_arn: None }
    }

    pub fn with_profile_arn(self, arn: &str) -> (r: Self)
        ensures
            r.conversation_state == self.conversation_state,
            r.profile_arn matches Some(a) && a@ == arn@,
    {
        KiroRequest { conversation_state: self.conversation_state, profile_arn: Some(String::from_str(arn)) }
    }

    pub fn conversation_id(&self) -> (r: &str)
        ensures
            r@ == self.conversation_state.conversation_id@,
    {
        self.conversation_state.conversation_id.as_str()
    }

    pub fn current_content(&self) -> (r: &str)
        ensures
            r@ == self.conversation_state.current_message.user_input_message.content@,
    {
        self.conversation_state.current_message.user_input_message.content.as_str()
    }

    pub fn model_id(&self) -> (r: &str)
        ensures
            r@ == self.conversation_state.current_message.user_input_message.model_id@,
    {
        self.conversation_state.current_message.user_input_message.model_id.as_str()
    }

    /// Renders the request as compact JSON.
    pub fn to_json(&self) -> (r: String)
        ensures
            r@ == spec_kiro_json(*self),
    {
        let mut out = String::new();
        out.append("{\"conversationState\":{\"conversationId\":");
        append_json_str(&mut out, self.conversation_state.conversation_id.as_str());
        match &self.conversation_state.agent_task_type {
            Some(t) => {
                out.append(",\"agentTaskType\":");
                append_json_str(&mut out, t.as_str());
            },
            None => {},
        }
        match &self.conversation_state.chat_trigger_type {
            Some(t) => {
                out.append(",\"chatTriggerType\":");
                append_json_str(&mut out, t.as_str());
            },
            None => {},
        }
        out.append(",\"currentMessage\":{\"userInputMessage\":{\"content\":");
        append_json_str(
            &mut out,
            self.conversation_state.current_message.user_input_message.content.as_str(),
        );
        out.append(",\"modelId\":");
        append_json_str(
            &mut out,
            self.conversation_state.current_message.user_input_message.model_id.as_str(),
        );
        match &self.conversation_state.current_message.user_input_message.origin {
            Some(o) => {
                out.append(",\"origin\":");
                append_json_str(&mut out, o.as_str());
            },
            None => {},
        }
        out.append(",\"userInputMessageContext\":{}}}}");
        match &self.profile_arn {
            Some(a) => {
                out.append(",\"profileArn\":");
                append_json_str(&mut out, a.as_str());
            },
            None => {},
        }
        out.append("}");
        proof {
            assert(out@ =~= spec_kiro_json(*self));
        }
        out
    }
}

} // verus!
