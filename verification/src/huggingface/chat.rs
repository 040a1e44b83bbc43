//! Rendering chat messages as ChatML prompts.

use crate::huggingface::config::{debug, debug_text};
use crate::huggingface::{refuse, HuggingFaceLoadError};
use crate::text::text;
use vstd::prelude::*;

verus! {

#[derive(Debug, Clone, Copy, PartialEq, Eq, Structural)]
pub enum Qwen2ChatRole {
    System,
    User,
    Assistant,
}

impl Qwen2ChatRole {
    /// The name of the role in a prompt.
    pub open spec fn name(self) -> Seq<char> {
        match self {
            Qwen2ChatRole::System => "system"@,
            Qwen2ChatRole::User => "user"@,
            Qwen2ChatRole::Assistant => "assistant"@,
        }
    }

    pub fn as_str(self) -> (name: &'static str)
        ensures
            name@ == self.name(),
    {
        match self {
            Qwen2ChatRole::System => "system",
            Qwen2ChatRole::User => "user",
            Qwen2ChatRole::Assistant => "assistant",
        }
    }
}

#[derive(Debug, Clone, PartialEq, Eq)]
pub struct Qwen2ChatMessage {
    pub role: Qwen2ChatRole,
    pub content: String,
}

impl Qwen2ChatMessage {
    pub fn new<S: Into<String>>(role: Qwen2ChatRole, content: S) -> (message: Self)
        ensures
            message.role == role,
            call_ensures(S::into, (content,), message.content),
    {
        Qwen2ChatMessage { role, content: content.into() }
    }
}

/// `part` occurs in `whole`.
pub open spec fn occurs(whole: Seq<char>, part: Seq<char>) -> bool {
    exists|i: int|
        0 <= i <= whole.len() - part.len() && #[trigger] whole.subrange(i, i + part.len()) == part
}

/// Calls `str::contains` of std with a string slice as the pattern: whether the slice occurs
/// somewhere in the string.
#[verifier::external_body]
pub(crate) fn contains_text(whole: &str, part: &str) -> (found: bool)
    ensures
        found == occurs(whole@, part@),
{
    whole.contains(part)
}

/// What a supported template has in it.
pub open spec fn template_parts() -> Seq<Seq<char>> {
    seq![
        "<|im_start|>"@,
        "<|im_end|>"@,
        "message.role"@,
        "message.content"@,
        "add_generation_prompt"@,
    ]
}

/// The first of `parts` that a template lacks.
pub open spec fn first_missing(template: Seq<char>, parts: Seq<Seq<char>>) -> Option<Seq<char>>
    decreases parts.len(),
{
    if parts.len() == 0 {
        None
    } else if !occurs(template, parts[0]) {
        Some(parts[0])
    } else {
        first_missing(template, parts.drop_first())
    }
}

/// Why a template is not supported.
pub open spec fn template_fault(template: Seq<char>) -> Option<Seq<char>> {
    match first_missing(template, template_parts()) {
        Some(part) => Some(
            "Qwen chat_template is not the supported plain-message ChatML form: missing "@
                + debug_text(part),
        ),
        None => None,
    }
}

fn missing_part(part: &str) -> (error: HuggingFaceLoadError)
    ensures
        error.0@ == "Qwen chat_template is not the supported plain-message ChatML form: missing "@
            + debug_text(part@),
{
    let mut message = text(
        "Qwen chat_template is not the supported plain-message ChatML form: missing ",
    );
    message.append(debug(part).as_str());
    HuggingFaceLoadError(message)
}

/// Check that a template is of the plain-message form.
pub fn validate_qwen2_chat_template(template: &str) -> (result: Result<(), HuggingFaceLoadError>)
    ensures
        match (result, template_fault(template@)) {
            (Ok(_), None) => true,
            (Err(error), Some(message)) => error.0@ == message,
            _ => false,
        },
{
    proof {
        reveal_with_fuel(first_missing, 6);
        let parts = template_parts();
        assert(parts.drop_first() =~= seq![
            "<|im_end|>"@,
            "message.role"@,
            "message.content"@,
            "add_generation_prompt"@,
        ]);
        assert(parts.drop_first().drop_first() =~= seq![
            "message.role"@,
            "message.content"@,
            "add_generation_prompt"@,
        ]);
        assert(parts.drop_first().drop_first().drop_first() =~= seq![
            "message.content"@,
            "add_generation_prompt"@,
        ]);
        assert(parts.drop_first().drop_first().drop_first().drop_first() =~= seq![
            "add_generation_prompt"@,
        ]);
        assert(parts.drop_first().drop_first().drop_first().drop_first().drop_first()
            =~= Seq::<Seq<char>>::empty());
    }
    if !contains_text(template, "<|im_start|>") {
        return Err(missing_part("<|im_start|>"));
    }
    if !contains_text(template, "<|im_end|>") {
        return Err(missing_part("<|im_end|>"));
    }
    if !contains_text(template, "message.role") {
        return Err(missing_part("message.role"));
    }
    if !contains_text(template, "message.content") {
        return Err(missing_part("message.content"));
    }
    if !contains_text(template, "add_generation_prompt") {
        return Err(missing_part("add_generation_prompt"));
    }
    Ok(())
}

/// The template of a tokenizer configuration: it has to have one, of the plain-message form.
///
/// `path` names the file in messages.
pub fn load_qwen_chat_template(path: &str, template: Option<String>) -> (result: Result<
    String,
    HuggingFaceLoadError,
>)
    ensures
        match template {
            None => result matches Err(error) && error.0@ == "Qwen tokenizer config "@ + path@
                + " does not contain chat_template"@,
            Some(template) => match (result, template_fault(template@)) {
                (Ok(checked), None) => checked@ == template@,
                (Err(error), Some(message)) => error.0@ == message,
                _ => false,
            },
        },
{
    match template {
        None => {
            let mut message = text("Qwen tokenizer config ");
            message.append(path);
            message.append(" does not contain chat_template");
            Err(HuggingFaceLoadError(message))
        },
        Some(template) => match validate_qwen2_chat_template(template.as_str()) {
            Ok(_) => Ok(template),
            Err(error) => Err(error),
        },
    }
}

/// One message of a prompt.
pub open spec fn message_text(role: Qwen2ChatRole, content: Seq<char>) -> Seq<char> {
    "<|im_start|>"@ + role.name() + "\n"@ + content + "<|im_end|>\n"@
}

/// Messages one after the other.
pub open spec fn messages_text(messages: Seq<Qwen2ChatMessage>) -> Seq<char>
    decreases messages.len(),
{
    if messages.len() == 0 {
        Seq::empty()
    } else {
        messages_text(messages.drop_last()) + message_text(
            messages.last().role,
            messages.last().content@,
        )
    }
}

/// The prompt of a chat: a default system message where the first message is none, the messages,
/// and the start of the answer where that is asked for.
pub open spec fn chat_text(messages: Seq<Qwen2ChatMessage>, add_generation_prompt: bool) -> Seq<
    char,
> {
    let start = if messages[0].role == Qwen2ChatRole::System {
        Seq::empty()
    } else {
        message_text(Qwen2ChatRole::System, "You are a helpful assistant."@)
    };
    let prompt = start + messages_text(messages);
    if add_generation_prompt {
        prompt + "<|im_start|>assistant\n"@
    } else {
        prompt
    }
}

/// Append one message to a prompt.
pub fn append_qwen2_chat_message(prompt: &mut String, message: &Qwen2ChatMessage)
    ensures
        final(prompt)@ == old(prompt)@ + message_text(message.role, message.content@),
{
    let ghost before = prompt@;
    prompt.append("<|im_start|>");
    prompt.append(message.role.as_str());
    prompt.append("\n");
    prompt.append(message.content.as_str());
    prompt.append("<|im_end|>\n");
    assert(prompt@ =~= before + message_text(message.role, message.content@));
}

/// Render the no-tools, plain-text branch of Qwen2/Qwen2.5's ChatML template.
pub fn render_qwen2_chat_messages(
    messages: &[Qwen2ChatMessage],
    add_generation_prompt: bool,
) -> (result: Result<String, HuggingFaceLoadError>)
    ensures
        match result {
            Ok(prompt) => messages@.len() > 0 && prompt@ == chat_text(
                messages@,
                add_generation_prompt,
            ),
            Err(error) => messages@.len() == 0 && error.0@
                == "Qwen chat requires at least one message"@,
        },
{
    if messages.len() == 0 {
        return Err(refuse("Qwen chat requires at least one message"));
    }
    let mut prompt = String::new();
    if messages[0].role != Qwen2ChatRole::System {
        append_qwen2_chat_message(
            &mut prompt,
            &Qwen2ChatMessage {
                role: Qwen2ChatRole::System,
                content: text("You are a helpful assistant."),
            },
        );
    }
    let ghost start = prompt@;
    let mut i: usize = 0;
    assert(messages@.take(0) =~= Seq::empty());
    assert(start + messages_text(messages@.take(0)) =~= start);
    while i < messages.len()
        invariant
            i <= messages@.len(),
            prompt@ == start + messages_text(messages@.take(i as int)),
        decreases messages@.len() - i,
    {
        append_qwen2_chat_message(&mut prompt, &messages[i]);
        i += 1;
        proof {
            let longer = messages@.take(i as int);
            assert(longer.drop_last() =~= messages@.take(i - 1));
            assert(prompt@ =~= start + messages_text(longer));
        }
    }
    assert(messages@.take(i as int) =~= messages@);
    assert(start =~= if messages@[0].role == Qwen2ChatRole::System {
        Seq::<char>::empty()
    } else {
        message_text(Qwen2ChatRole::System, "You are a helpful assistant."@)
    });
    if add_generation_prompt {
        prompt.append("<|im_start|>assistant\n");
    }
    Ok(prompt)
}

/// A chat that begins with a system message is rendered as it stands; any other is rendered as if
/// it began with the default one.
pub proof fn law_default_system_message(
    messages: Seq<Qwen2ChatMessage>,
    system: Qwen2ChatMessage,
    add_generation_prompt: bool,
)
    requires
        messages.len() > 0,
        messages[0].role != Qwen2ChatRole::System,
        system.role == Qwen2ChatRole::System,
        system.content@ == "You are a helpful assistant."@,
    ensures
        chat_text(messages, add_generation_prompt) == chat_text(
            seq![system] + messages,
            add_generation_prompt,
        ),
{
    lemma_leading_message(system, messages);
    let longer = seq![system] + messages;
    assert(longer[0] == system);
    assert(Seq::<char>::empty() + messages_text(longer) =~= messages_text(longer));
}

proof fn lemma_leading_message(first: Qwen2ChatMessage, messages: Seq<Qwen2ChatMessage>)
    ensures
        messages_text(seq![first] + messages) == message_text(first.role, first.content@)
            + messages_text(messages),
    decreases messages.len(),
{
    let longer = seq![first] + messages;
    if messages.len() == 0 {
        assert(longer.drop_last() =~= Seq::empty());
        assert(longer.last() == first);
        assert(messages_text(longer.drop_last()) =~= Seq::<char>::empty());
        assert(messages_text(messages) =~= Seq::<char>::empty());
        assert(messages_text(longer) =~= message_text(first.role, first.content@)
            + messages_text(messages));
    } else {
        assert(longer.drop_last() =~= seq![first] + messages.drop_last());
        assert(longer.last() == messages.last());
        lemma_leading_message(first, messages.drop_last());
        assert(messages_text(longer) =~= message_text(first.role, first.content@)
            + messages_text(messages));
    }
}

} // verus!
