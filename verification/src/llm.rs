//! Content model of LLM chat messages: plain text or ordered content blocks,
//! with the text and thinking accessors and token-usage accounting.

use vstd::prelude::*;
use vstd::std_specs::convert::FromSpecImpl;
use crate::text::{concat2, join_with, stripped, strip_prefix_str};
use crate::error::AgentError;
use crate::value::{
    AgentValue, ValueView, bool_of, field_in, field_of, items_view, json_text, lemma_items_view, text_of,
    value_json_text, value_view,
};

verus! {

/// One block of structured message content.
///
/// Serialized as an internally tagged object (`{"type": "text", ...}`) so
/// block arrays in preset JSON stay self-describing.
#[derive(Debug, Clone, PartialEq)]
pub enum ContentBlock {
    /// Plain text content.
    Text {
        /// The text.
        text: String,
    },
    /// Reasoning/thinking trace from an extended thinking model.
    Thinking {
        /// The thinking text. For redacted blocks this holds the provider's
        /// opaque encrypted payload verbatim.
        thinking: String,
        /// Provider signature that must be replayed together with the
        /// thinking text when re-sending assistant history.
        signature: Option<String>,
        /// True when the provider returned an encrypted `redacted_thinking`
        /// payload instead of readable text.
        redacted: bool,
    },
    /// Inline image content.
    Image {
        /// Base64-encoded image data.
        data: String,
        /// MIME type of the image, e.g. "image/png".
        mime_type: String,
    },
}

/// Content of a message: plain text or a sequence of [`ContentBlock`]s.
///
/// Plain text serializes as a JSON string (the pre-block format); block
/// content serializes as a tagged array.
#[derive(Debug, Clone, PartialEq)]
pub enum MessageContent {
    /// Plain text content (the common case).
    Text(String),
    /// Structured content preserving provider block order.
    Blocks(Vec<ContentBlock>),
}

/// The text that one block contributes to the message text.
pub open spec fn block_text(b: ContentBlock) -> Seq<char> {
    match b {
        ContentBlock::Text { text } => text@,
        _ => Seq::empty(),
    }
}

/// Concatenation, in order, of the text of all text blocks.
pub open spec fn blocks_text(blocks: Seq<ContentBlock>) -> Seq<char>
    decreases blocks.len(),
{
    if blocks.len() == 0 {
        Seq::empty()
    } else {
        blocks_text(blocks.drop_last()) + block_text(blocks.last())
    }
}

/// The concatenated text of a message content.
pub open spec fn content_text(c: MessageContent) -> Seq<char> {
    match c {
        MessageContent::Text(s) => s@,
        MessageContent::Blocks(blocks) => blocks_text(blocks@),
    }
}

/// The readable form of each thinking block, in order: the thinking text, or
/// the placeholder `[redacted]` for a redacted block.
pub open spec fn thinking_parts(blocks: Seq<ContentBlock>) -> Seq<Seq<char>>
    decreases blocks.len(),
{
    if blocks.len() == 0 {
        Seq::empty()
    } else {
        let rest = thinking_parts(blocks.drop_last());
        match blocks.last() {
            ContentBlock::Thinking { thinking, redacted, .. } => rest.push(
                if redacted { "[redacted]"@ } else { thinking@ },
            ),
            _ => rest,
        }
    }
}

/// The thinking trace of a message content: `None` without thinking blocks,
/// otherwise the readable parts joined with a newline.
pub open spec fn content_thinking(c: MessageContent) -> Option<Seq<char>> {
    match c {
        MessageContent::Text(_) => None,
        MessageContent::Blocks(blocks) => {
            let parts = thinking_parts(blocks@);
            if parts.len() == 0 {
                None
            } else {
                Some(join_with(parts, "\n"@))
            }
        },
    }
}

impl Default for MessageContent {
    fn default() -> (r: Self)
        ensures
            r matches MessageContent::Text(s) && s@ == Seq::<char>::empty(),
    {
        MessageContent::Text(String::new())
    }
}

impl From<String> for MessageContent {
    fn from(s: String) -> (r: Self) {
        MessageContent::Text(s)
    }
}

impl FromSpecImpl<String> for MessageContent {
    open spec fn obeys_from_spec() -> bool {
        true
    }

    open spec fn from_spec(v: String) -> Self {
        MessageContent::Text(v)
    }
}

impl MessageContent {
    /// Creates plain text content from a string slice (the conversion from
    /// `&str`).
    pub fn from_str(s: &str) -> (r: Self)
        ensures
            r matches MessageContent::Text(t) && t@ == s@,
    {
        MessageContent::Text(s.to_owned())
    }

    /// Concatenated text of all text content.
    pub fn text(&self) -> (r: String)
        ensures
            r@ == content_text(*self),
    {
        match self {
            MessageContent::Text(s) => s.clone(),
            MessageContent::Blocks(blocks) => {
                let mut out = String::new();
                let mut i: usize = 0;
                while i < blocks.len()
                    invariant
                        i <= blocks@.len(),
                        out@ == blocks_text(blocks@.take(i as int)),
                    decreases blocks@.len() - i,
                {
                    assert(blocks@.take(i + 1).drop_last() == blocks@.take(i as int));
                    match &blocks[i] {
                        ContentBlock::Text { text } => {
                            out.append(text.as_str());
                        },
                        _ => {},
                    }
                    i = i + 1;
                }
                assert(blocks@.take(blocks@.len() as int) == blocks@);
                out
            },
        }
    }

    /// Concatenated thinking text, or `None` when the content has no
    /// thinking blocks. Redacted blocks surface as a `"[redacted]"`
    /// placeholder and multiple blocks are joined with a newline.
    pub fn thinking(&self) -> (r: Option<String>)
        ensures
            r.deep_view() == content_thinking(*self),
    {
        match self {
            MessageContent::Text(_) => None,
            MessageContent::Blocks(blocks) => {
                let mut out = String::new();
                let mut found = false;
                let mut i: usize = 0;
                while i < blocks.len()
                    invariant
                        i <= blocks@.len(),
                        found == (thinking_parts(blocks@.take(i as int)).len() > 0),
                        out@ == join_with(thinking_parts(blocks@.take(i as int)), "\n"@),
                    decreases blocks@.len() - i,
                {
                    let ghost prev = thinking_parts(blocks@.take(i as int));
                    assert(blocks@.take(i + 1).drop_last() == blocks@.take(i as int));
                    match &blocks[i] {
                        ContentBlock::Thinking { thinking, redacted, .. } => {
                            if found {
                                out.append("\n");
                            }
                            if *redacted {
                                out.append("[redacted]");
                            } else {
                                out.append(thinking.as_str());
                            }
                            found = true;
                            proof {
                                let parts = thinking_parts(blocks@.take(i + 1));
                                assert(parts.drop_last() == prev);
                            }
                        },
                        _ => {},
                    }
                    i = i + 1;
                }
                assert(blocks@.take(blocks@.len() as int) == blocks@);
                if found {
                    Some(out)
                } else {
                    None
                }
            },
        }
    }
}

/// Absorbs the legacy top-level `thinking` string field into a leading
/// Thinking block. Empty text content contributes no block; other text
/// becomes a single text block after the thinking block.
pub open spec fn absorbed_blocks(content: MessageContent, thinking: String) -> Seq<ContentBlock> {
    let lead = ContentBlock::Thinking { thinking, signature: None, redacted: false };
    match content {
        MessageContent::Text(s) => if s@.len() == 0 {
            seq![lead]
        } else {
            seq![lead, ContentBlock::Text { text: s }]
        },
        MessageContent::Blocks(blocks) => seq![lead] + blocks@,
    }
}

/// Absorbs the legacy top-level `thinking` string field into a leading
/// Thinking block. Providers emit thinking before the answer text, so the
/// absorbed block leads.
pub fn absorb_legacy_thinking(content: MessageContent, thinking: String) -> (r: MessageContent)
    ensures
        r matches MessageContent::Blocks(blocks) && blocks@ == absorbed_blocks(content, thinking),
{
    let ghost original = content;
    let mut blocks: Vec<ContentBlock> = match content {
        MessageContent::Text(s) => {
            if s.as_str().is_empty() {
                Vec::new()
            } else {
                let mut v = Vec::new();
                v.push(ContentBlock::Text { text: s });
                v
            }
        },
        MessageContent::Blocks(blocks) => blocks,
    };
    blocks.insert(0, ContentBlock::Thinking { thinking, signature: None, redacted: false });
    MessageContent::Blocks(blocks)
}

/// Token usage reported by an LLM provider for one assistant message.
///
/// `input_tokens` excludes cache_read/cache_write tokens; providers whose
/// prompt token counts include cached tokens are normalized by subtracting
/// them.
#[derive(Debug, Default, Clone, Copy, PartialEq, Eq)]
pub struct Usage {
    /// Non-cached input tokens billed for the request.
    pub input_tokens: u64,
    /// Output tokens generated by the model.
    pub output_tokens: u64,
    /// Input tokens read from the provider's prompt cache.
    pub cache_read_tokens: u64,
    /// Input tokens written to the provider's prompt cache.
    pub cache_write_tokens: u64,
}


/// A tool call read from a message value: its optional id, the tool's
/// name, and its parameters (borrowed from the value they were read from).
pub struct CallParts<'a> {
    /// Provider-assigned call id, if any.
    pub id: Option<String>,
    /// Name of the tool to call.
    pub name: String,
    /// The call's parameters.
    pub parameters: &'a AgentValue,
}

/// A message read from a value. `image` is the attached image value (a
/// string holding base64 PNG data, or an image), borrowed from the input.
pub struct MessageParts<'a> {
    /// Unique identifier of the message.
    pub id: Option<String>,
    /// Role of the sender.
    pub role: String,
    /// Content: plain text or content blocks.
    pub content: MessageContent,
    /// Whether this is a partial streaming response.
    pub streaming: bool,
    /// Tool calls requested by the assistant.
    pub tool_calls: Option<Vec<CallParts<'a>>>,
    /// Name of the tool, for tool-result messages.
    pub tool_name: Option<String>,
    /// Marks a tool-result message as an error.
    pub is_error: Option<bool>,
    /// Why generation stopped.
    pub stop_reason: Option<String>,
    /// Token usage reported by the provider.
    pub usage: Option<Usage>,
    /// The attached image value.
    pub image: Option<&'a AgentValue>,
}

/// A message content by the characters of its text or its blocks.
pub enum ContentView {
    /// Plain text.
    Text(Seq<char>),
    /// Content blocks, in order.
    Blocks(Seq<ContentBlock>),
}

/// A tool call by the characters of its strings.
pub struct CallView {
    /// Provider-assigned call id, if any.
    pub id: Option<Seq<char>>,
    /// Name of the tool.
    pub name: Seq<char>,
    /// The call's parameters.
    pub parameters: AgentValue,
}

/// A decoded message by the characters of its strings.
pub struct MessageView {
    /// Unique identifier of the message.
    pub id: Option<Seq<char>>,
    /// Role of the sender.
    pub role: Seq<char>,
    /// The content.
    pub content: ContentView,
    /// Whether this is a partial streaming response.
    pub streaming: bool,
    /// Tool calls.
    pub tool_calls: Option<Seq<CallView>>,
    /// Tool name.
    pub tool_name: Option<Seq<char>>,
    /// Error mark.
    pub is_error: Option<bool>,
    /// Stop reason.
    pub stop_reason: Option<Seq<char>>,
    /// Token usage.
    pub usage: Option<Usage>,
    /// The attached image value.
    pub image: Option<AgentValue>,
}

/// The view of a message content.
pub open spec fn content_view(c: MessageContent) -> ContentView {
    match c {
        MessageContent::Text(s) => ContentView::Text(s@),
        MessageContent::Blocks(b) => ContentView::Blocks(b@),
    }
}

/// The view of a decoded tool call.
pub open spec fn call_view<'a>(c: CallParts<'a>) -> CallView {
    CallView { id: c.id.deep_view(), name: c.name@, parameters: *c.parameters }
}

/// The view of a decoded message.
pub open spec fn parts_view<'a>(p: MessageParts<'a>) -> MessageView {
    MessageView {
        id: p.id.deep_view(),
        role: p.role@,
        content: content_view(p.content),
        streaming: p.streaming,
        tool_calls: match p.tool_calls {
            Some(calls) => Some(calls@.map_values(|c: CallParts<'a>| call_view(c))),
            None => None,
        },
        tool_name: p.tool_name.deep_view(),
        is_error: p.is_error,
        stop_reason: p.stop_reason.deep_view(),
        usage: p.usage,
        image: match p.image {
            Some(x) => Some(*x),
            None => None,
        },
    }
}

/// A plain message of the given role and text, with nothing else set.
pub open spec fn plain_message(role: Seq<char>, text: Seq<char>) -> MessageView {
    MessageView {
        id: None,
        role,
        content: ContentView::Text(text),
        streaming: false,
        tool_calls: None,
        tool_name: None,
        is_error: None,
        stop_reason: None,
        usage: None,
        image: None,
    }
}

/// One tool call read from an element of `tool_calls`, or the error it
/// gives.
pub open spec fn call_of(c: AgentValue) -> Result<CallView, Seq<char>> {
    match field_of(c, "function"@) {
        None => Err("Tool call missing 'function' field"@),
        Some(f) => match text_of(field_of(f, "name"@)) {
            None => Err("Tool call function missing 'name' field"@),
            Some(name) => match field_of(f, "parameters"@) {
                None => Err("Tool call function missing 'parameters' field"@),
                Some(p) => Ok(CallView { id: text_of(field_of(c, "id"@)), name, parameters: p }),
            },
        },
    }
}

/// The tool calls read from the elements of `tool_calls`, in order, or the
/// error of the first element that gives one.
pub open spec fn calls_of(items: Seq<AgentValue>) -> Result<Seq<CallView>, Seq<char>>
    decreases items.len(),
{
    if items.len() == 0 {
        Ok(Seq::empty())
    } else {
        match calls_of(items.drop_last()) {
            Err(e) => Err(e),
            Ok(calls) => match call_of(items.last()) {
                Err(e) => Err(e),
                Ok(c) => Ok(calls.push(c)),
            },
        }
    }
}

/// The content of a message object before the legacy `thinking` field is
/// absorbed: the `content` field as text, or the parsed content blocks when
/// it is an array.
pub open spec fn object_content(
    fields: Seq<(String, AgentValue)>,
    blocks: Result<Vec<ContentBlock>, String>,
) -> Result<MessageContent, Seq<char>> {
    match field_in(fields, "content"@) {
        None => Err("Message object missing 'content' field"@),
        Some(AgentValue::String(s)) => Ok(MessageContent::Text(s)),
        Some(AgentValue::Array(_)) => match blocks {
            Ok(b) => Ok(MessageContent::Blocks(b)),
            Err(e) => Err("Invalid content blocks: "@ + e@),
        },
        Some(_) => Err("'content' field must be a string or an array of content blocks"@),
    }
}

/// The content with a legacy string `thinking` field absorbed as a leading
/// thinking block.
pub open spec fn with_thinking(fields: Seq<(String, AgentValue)>, content: MessageContent) -> ContentView {
    match field_in(fields, "thinking"@) {
        Some(AgentValue::String(t)) => ContentView::Blocks(absorbed_blocks(content, t)),
        _ => content_view(content),
    }
}

/// The attached image: the `image` field when it is a string or an image.
pub open spec fn image_of(fields: Seq<(String, AgentValue)>) -> Option<AgentValue> {
    match field_in(fields, "image"@) {
        Some(AgentValue::String(s)) => Some(AgentValue::String(s)),
        Some(AgentValue::Image(d)) => Some(AgentValue::Image(d)),
        _ => None,
    }
}

/// The message an object value decodes to, or the error it gives. `blocks`
/// is the parse of the `content` array into content blocks and `usage` the
/// parse of the `usage` field (`None` where it does not parse); each is
/// used only where that field has that form.
pub open spec fn object_message(
    fields: Seq<(String, AgentValue)>,
    blocks: Result<Vec<ContentBlock>, String>,
    usage: Option<Usage>,
) -> Result<MessageView, Seq<char>> {
    match object_content(fields, blocks) {
        Err(e) => Err(e),
        Ok(content) => {
            let tool_name: Result<Option<Seq<char>>, Seq<char>> = match field_in(fields, "tool_name"@) {
                None => Ok(None),
                Some(AgentValue::String(t)) => Ok(Some(t@)),
                Some(_) => Err("'tool_name' field must be a string"@),
            };
            let tool_calls: Result<Option<Seq<CallView>>, Seq<char>> = match field_in(fields, "tool_calls"@) {
                None => Ok(None),
                Some(AgentValue::Array(items)) => match calls_of(items@) {
                    Ok(calls) => Ok(Some(calls)),
                    Err(e) => Err(e),
                },
                Some(_) => Err("'tool_calls' field must be an array"@),
            };
            match tool_name {
                Err(e) => Err(e),
                Ok(tool_name) => match tool_calls {
                    Err(e) => Err(e),
                    Ok(tool_calls) => Ok(MessageView {
                        id: text_of(field_in(fields, "id"@)),
                        role: match text_of(field_in(fields, "role"@)) {
                            Some(r) => r,
                            None => "user"@,
                        },
                        content: with_thinking(fields, content),
                        streaming: match bool_of(field_in(fields, "streaming"@)) {
                            Some(b) => b,
                            None => false,
                        },
                        tool_calls,
                        tool_name,
                        is_error: bool_of(field_in(fields, "is_error"@)),
                        stop_reason: text_of(field_in(fields, "stop_reason"@)),
                        usage: match field_in(fields, "usage"@) {
                            Some(_) => usage,
                            None => None,
                        },
                        image: image_of(fields),
                    }),
                },
            }
        },
    }
}

/// The message a value decodes to, or the error it gives: a string is a
/// user message with that text, an image a user message with empty text
/// carrying that image, and an object is read field by field.
pub open spec fn message_of(
    v: AgentValue,
    blocks: Result<Vec<ContentBlock>, String>,
    usage: Option<Usage>,
) -> Result<MessageView, Seq<char>> {
    match v {
        AgentValue::String(s) => Ok(plain_message("user"@, s@)),
        AgentValue::Image(d) => Ok(MessageView { image: Some(AgentValue::Image(d)), ..plain_message("user"@, Seq::empty()) }),
        AgentValue::Object(fields) => object_message(fields@, blocks, usage),
        _ => Err("Cannot convert AgentValue to Message"@),
    }
}


/// The error of a value that does not decode to a message.
fn invalid(text: &str) -> (r: AgentError)
    ensures
        r matches AgentError::InvalidValue(m) && m@ == text@,
{
    AgentError::InvalidValue(String::from_str(text))
}

/// Reads one element of a message's `tool_calls`.
fn decode_call<'a>(c: &'a AgentValue) -> (r: Result<CallParts<'a>, AgentError>)
    ensures
        match r {
            Ok(p) => call_of(*c) == Ok::<CallView, Seq<char>>(call_view(p)),
            Err(e) => e matches AgentError::InvalidValue(m) && call_of(*c) == Err::<CallView, Seq<char>>(m@),
        },
{
    let id = match c.get("id") {
        Some(x) => x.as_text(),
        None => None,
    };
    let function = match c.get("function") {
        Some(f) => f,
        None => return Err(invalid("Tool call missing 'function' field")),
    };
    let name = match function.get("name") {
        Some(n) => match n.as_text() {
            Some(t) => t,
            None => return Err(invalid("Tool call function missing 'name' field")),
        },
        None => return Err(invalid("Tool call function missing 'name' field")),
    };
    let parameters = match function.get("parameters") {
        Some(p) => p,
        None => return Err(invalid("Tool call function missing 'parameters' field")),
    };
    Ok(CallParts { id, name, parameters })
}

/// Reads the elements of a message's `tool_calls`, in order.
fn decode_calls<'a>(items: &'a Vec<AgentValue>) -> (r: Result<Vec<CallParts<'a>>, AgentError>)
    ensures
        match r {
            Ok(calls) => calls_of(items@) == Ok::<Seq<CallView>, Seq<char>>(
                calls@.map_values(|c: CallParts<'a>| call_view(c)),
            ),
            Err(e) => e matches AgentError::InvalidValue(m) && calls_of(items@) == Err::<
                Seq<CallView>,
                Seq<char>,
            >(m@),
        },
{
    let mut out: Vec<CallParts<'a>> = Vec::new();
    let mut i: usize = 0;
    proof {
        assert(items@.take(0) =~= Seq::<AgentValue>::empty());
        assert(out@.map_values(|c: CallParts<'a>| call_view(c)) =~= Seq::<CallView>::empty());
    }
    while i < items.len()
        invariant
            i <= items@.len(),
            calls_of(items@.take(i as int)) == Ok::<Seq<CallView>, Seq<char>>(
                out@.map_values(|c: CallParts<'a>| call_view(c)),
            ),
        decreases items@.len() - i,
    {
        proof {
            assert(items@.take(i + 1).drop_last() =~= items@.take(i as int));
            assert(items@.take(i + 1).last() == items@[i as int]);
        }
        match decode_call(&items[i]) {
            Err(e) => {
                proof {
                    assert(items@.take(items@.len() as int) =~= items@);
                    lemma_calls_err_stays(items@, i as int + 1);
                }
                return Err(e);
            },
            Ok(c) => {
                let ghost before = out@;
                out.push(c);
                proof {
                    assert(out@.map_values(|c: CallParts<'a>| call_view(c)) =~= before.map_values(
                        |c: CallParts<'a>| call_view(c),
                    ).push(call_view(c)));
                }
            },
        }
        i = i + 1;
    }
    proof {
        assert(items@.take(i as int) =~= items@);
    }
    Ok(out)
}

/// Once a prefix of the calls gives an error, every longer prefix gives
/// the same error.
proof fn lemma_calls_err_stays(items: Seq<AgentValue>, n: int)
    requires
        0 <= n <= items.len(),
        calls_of(items.take(n)) is Err,
    ensures
        calls_of(items) == calls_of(items.take(n)),
    decreases items.len() - n,
{
    if n == items.len() {
        assert(items.take(n) =~= items);
    } else {
        assert(items.take(n + 1).drop_last() =~= items.take(n));
        lemma_calls_err_stays(items, n + 1);
    }
}

/// Decodes a message from a value, as a message arriving on an input port
/// is read. `blocks` is the parse of the `content` field into content
/// blocks, used where that field is an array; `usage` is the parse of the
/// `usage` field (`None` where it does not parse), used where that field is
/// present.
pub fn message_from_value<'a>(
    v: &'a AgentValue,
    blocks: Result<Vec<ContentBlock>, String>,
    usage: Option<Usage>,
) -> (r: Result<MessageParts<'a>, AgentError>)
    ensures
        match r {
            Ok(p) => message_of(*v, blocks, usage) == Ok::<MessageView, Seq<char>>(parts_view(p)),
            Err(e) => e matches AgentError::InvalidValue(m) && message_of(*v, blocks, usage) == Err::<
                MessageView,
                Seq<char>,
            >(m@),
        },
        r is Ok ==> r->Ok_0.tool_name.deep_view() == text_of(field_of(*v, "tool_name"@)),
        r is Ok ==> r->Ok_0.role@ == match text_of(field_of(*v, "role"@)) {
            Some(role) => role,
            None => "user"@,
        },
{
    proof {
        law_message_fields_are_read(*v, blocks, usage);
    }
    match v {
        AgentValue::String(s) => {
            let p = MessageParts {
                id: None,
                role: String::from_str("user"),
                content: MessageContent::Text(s.clone()),
                streaming: false,
                tool_calls: None,
                tool_name: None,
                is_error: None,
                stop_reason: None,
                usage: None,
                image: None,
            };
            proof {
                assert(parts_view(p) == plain_message("user"@, s@));
            }
            return Ok(p);
        },
        AgentValue::Image(_) => {
            let p = MessageParts {
                id: None,
                role: String::from_str("user"),
                content: MessageContent::Text(String::new()),
                streaming: false,
                tool_calls: None,
                tool_name: None,
                is_error: None,
                stop_reason: None,
                usage: None,
                image: Some(v),
            };
            proof {
                assert(p.content->Text_0@ =~= Seq::<char>::empty());
            }
            return Ok(p);
        },
        AgentValue::Object(_) => {},
        _ => return Err(invalid("Cannot convert AgentValue to Message")),
    }
    let content = match v.get("content") {
        None => return Err(invalid("Message object missing 'content' field")),
        Some(AgentValue::String(s)) => MessageContent::Text(s.clone()),
        Some(AgentValue::Array(_)) => match blocks {
            Ok(b) => MessageContent::Blocks(b),
            Err(e) => {
                return Err(
                    AgentError::InvalidValue(concat2("Invalid content blocks: ", e.as_str())),
                )
            },
        },
        Some(_) => return Err(invalid("'content' field must be a string or an array of content blocks")),
    };
    let ghost plain_content = content;
    let content = match v.get("thinking") {
        Some(AgentValue::String(t)) => absorb_legacy_thinking(content, t.clone()),
        _ => content,
    };
    let tool_name = match v.get("tool_name") {
        None => None,
        Some(AgentValue::String(t)) => Some(t.clone()),
        Some(_) => return Err(invalid("'tool_name' field must be a string")),
    };
    let tool_calls = match v.get("tool_calls") {
        None => None,
        Some(AgentValue::Array(items)) => match decode_calls(items) {
            Ok(calls) => Some(calls),
            Err(e) => return Err(e),
        },
        Some(_) => return Err(invalid("'tool_calls' field must be an array")),
    };
    let id = match v.get("id") {
        Some(x) => x.as_text(),
        None => None,
    };
    let role = match v.get("role") {
        Some(x) => match x.as_text() {
            Some(r) => r,
            None => String::from_str("user"),
        },
        None => String::from_str("user"),
    };
    let streaming = match v.get("streaming") {
        Some(x) => match x.as_bool() {
            Some(b) => b,
            None => false,
        },
        None => false,
    };
    let is_error = match v.get("is_error") {
        Some(x) => x.as_bool(),
        None => None,
    };
    let stop_reason = match v.get("stop_reason") {
        Some(x) => x.as_text(),
        None => None,
    };
    let usage = match v.get("usage") {
        Some(_) => usage,
        None => None,
    };
    let image = match v.get("image") {
        Some(x) => match x {
            AgentValue::String(_) => Some(x),
            AgentValue::Image(_) => Some(x),
            _ => None,
        },
        None => None,
    };
    let p = MessageParts {
        id,
        role,
        content,
        streaming,
        tool_calls,
        tool_name,
        is_error,
        stop_reason,
        usage,
        image,
    };
    proof {
        let fields = v->Object_0@;
        assert(object_content(fields, blocks) == Ok::<MessageContent, Seq<char>>(plain_content));
        assert(with_thinking(fields, plain_content) == content_view(p.content));
    }
    Ok(p)
}


/// `s` with every leading copy of the non-empty `prefix` removed, as
/// `str::trim_start_matches` removes them.
pub open spec fn strip_all(s: Seq<char>, prefix: Seq<char>) -> Seq<char>
    decreases s.len(),
{
    if prefix.len() > 0 && prefix.len() <= s.len() && s.take(prefix.len() as int) == prefix {
        strip_all(s.skip(prefix.len() as int), prefix)
    } else {
        s
    }
}

/// The base64 payload of an image string: the text without its leading
/// `data:image/png;base64,` data-URL prefixes.
pub fn png_base64_payload(s: &str) -> (r: String)
    ensures
        r@ == strip_all(s@, "data:image/png;base64,"@),
{
    proof {
        reveal_strlit("data:image/png;base64,");
    }
    let mut cur = s.to_owned();
    loop
        invariant
            strip_all(s@, "data:image/png;base64,"@) == strip_all(cur@, "data:image/png;base64,"@),
            "data:image/png;base64,"@.len() == 22,
        decreases cur@.len(),
    {
        match strip_prefix_str(cur.as_str(), "data:image/png;base64,") {
            Some(rest) => {
                cur = rest;
            },
            None => {
                return cur;
            },
        }
    }
}


/// A content block by the characters of its strings.
pub enum BlockView {
    /// Plain text.
    Text(Seq<char>),
    /// A thinking trace.
    Thinking {
        /// The thinking text.
        thinking: Seq<char>,
        /// The provider signature.
        signature: Option<Seq<char>>,
        /// Whether the trace is redacted.
        redacted: bool,
    },
    /// An image.
    Image {
        /// Base64 image data.
        data: Seq<char>,
        /// MIME type.
        mime_type: Seq<char>,
    },
}

/// The view of a content block.
pub open spec fn block_view(b: ContentBlock) -> BlockView {
    match b {
        ContentBlock::Text { text } => BlockView::Text(text@),
        ContentBlock::Thinking { thinking, signature, redacted } => BlockView::Thinking {
            thinking: thinking@,
            signature: signature.deep_view(),
            redacted,
        },
        ContentBlock::Image { data, mime_type } => BlockView::Image { data: data@, mime_type: mime_type@ },
    }
}

/// The views of content blocks, in order.
pub open spec fn blocks_view(blocks: Seq<ContentBlock>) -> Seq<BlockView> {
    blocks.map_values(|x: ContentBlock| block_view(x))
}

/// A message content by the characters of its strings.
pub enum ContentTextView {
    /// Plain text.
    Text(Seq<char>),
    /// Content blocks, in order.
    Blocks(Seq<BlockView>),
}

/// The view of a message content, block by block.
pub open spec fn content_text_view(c: MessageContent) -> ContentTextView {
    match c {
        MessageContent::Text(s) => ContentTextView::Text(s@),
        MessageContent::Blocks(b) => ContentTextView::Blocks(blocks_view(b@)),
    }
}

/// The image block of a PNG image given by its data URL.
pub open spec fn image_block_view(data_url: Seq<char>) -> BlockView {
    BlockView::Image { data: strip_all(data_url, "data:image/png;base64,"@), mime_type: "image/png"@ }
}

/// The block of one element of an array tool result: an image block for
/// an image, the JSON text for anything else.
pub open spec fn result_item_block(v: ValueView) -> BlockView {
    match v {
        ValueView::Image(d) => image_block_view(d),
        _ => BlockView::Text(json_text(v)),
    }
}

/// The blocks of an array tool result, one per element in order.
pub open spec fn result_blocks(items: Seq<ValueView>) -> Seq<BlockView> {
    items.map_values(|x: ValueView| result_item_block(x))
}

/// Whether some element is an image.
pub open spec fn has_image(items: Seq<ValueView>) -> bool {
    exists|i: int| 0 <= i < items.len() && #[trigger] is_image(items[i])
}

/// Whether a value is an image.
pub open spec fn is_image(v: ValueView) -> bool {
    v is Image
}

/// The content of the tool-result message for a tool's result: an image
/// becomes one image block, an array holding an image becomes one block per
/// element in order, and anything else keeps its JSON text.
pub open spec fn tool_result_content_of(resp: ValueView) -> ContentTextView {
    match resp {
        ValueView::Image(d) => ContentTextView::Blocks(seq![image_block_view(d)]),
        ValueView::Array(items) => if has_image(items) {
            ContentTextView::Blocks(result_blocks(items))
        } else {
            ContentTextView::Text(json_text(resp))
        },
        _ => ContentTextView::Text(json_text(resp)),
    }
}

/// The image block of a PNG image given by its data URL.
fn image_block(data_url: &str) -> (r: ContentBlock)
    ensures
        block_view(r) == image_block_view(data_url@),
{
    ContentBlock::Image { data: png_base64_payload(data_url), mime_type: String::from_str("image/png") }
}

/// The content of the tool-result message for a tool's result.
pub fn tool_result_content(resp: &AgentValue) -> (r: MessageContent)
    ensures
        content_text_view(r) == tool_result_content_of(value_view(*resp)),
{
    match resp {
        AgentValue::Image(d) => {
            let b = image_block(d.as_str());
            let mut v: Vec<ContentBlock> = Vec::new();
            v.push(b);
            proof {
                assert(blocks_view(v@) =~= seq![image_block_view(d@)]);
            }
            return MessageContent::Blocks(v);
        },
        AgentValue::Array(items) => {
            proof {
                lemma_items_view(items@);
            }
            let ghost iv = items_view(items@);
            let mut any_image = false;
            let mut i: usize = 0;
            while i < items.len()
                invariant
                    i <= items@.len(),
                    iv == items_view(items@),
                    iv.len() == items@.len(),
                    forall|j: int| 0 <= j < items@.len() ==> #[trigger] iv[j] == value_view(items@[j]),
                    any_image == exists|j: int| 0 <= j < i && #[trigger] is_image(iv[j]),
                decreases items@.len() - i,
            {
                if let AgentValue::Image(_) = &items[i] {
                    assert(is_image(iv[i as int]));
                    any_image = true;
                } else {
                    assert(!is_image(iv[i as int]));
                }
                i = i + 1;
            }
            if any_image {
                let mut blocks: Vec<ContentBlock> = Vec::new();
                let mut k: usize = 0;
                while k < items.len()
                    invariant
                        k <= items@.len(),
                        iv.len() == items@.len(),
                        forall|j: int| 0 <= j < items@.len() ==> #[trigger] iv[j] == value_view(items@[j]),
                        blocks@.len() == k,
                        exists|j: int| 0 <= j < iv.len() && #[trigger] is_image(iv[j]),
                        forall|j: int|
                            0 <= j < k ==> #[trigger] block_view(blocks@[j]) == result_item_block(iv[j]),
                    decreases items@.len() - k,
                {
                    let b = match &items[k] {
                        AgentValue::Image(d) => image_block(d.as_str()),
                        other => ContentBlock::Text { text: value_json_text(other) },
                    };
                    assert(block_view(b) == result_item_block(iv[k as int]));
                    blocks.push(b);
                    k = k + 1;
                }
                proof {
                    assert(value_view(*resp) == ValueView::Array(iv));
                    assert(exists|j: int| 0 <= j < iv.len() && #[trigger] is_image(iv[j]));
                    assert(blocks_view(blocks@) =~= result_blocks(iv));
                }
                proof {
                    let j = choose|j: int| 0 <= j < iv.len() && #[trigger] is_image(iv[j]);
                    assert(is_image(iv[j]));
                    assert(has_image(iv));
                }
                return MessageContent::Blocks(blocks);
            }
        },
        _ => {},
    }
    MessageContent::Text(value_json_text(resp))
}


/// Whether every block is a text block.
pub open spec fn all_text(blocks: Seq<ContentBlock>) -> bool {
    forall|i: int| 0 <= i < blocks.len() ==> #[trigger] blocks[i] is Text
}

/// The text a message content is written as, when it is written as a plain
/// string: text content, and block content made only of text blocks (as
/// their concatenated text). Other block content is written as blocks.
pub open spec fn plain_text_form(c: MessageContent) -> Option<Seq<char>> {
    match c {
        MessageContent::Text(s) => Some(s@),
        MessageContent::Blocks(b) => if all_text(b@) {
            Some(blocks_text(b@))
        } else {
            None
        },
    }
}

/// The plain string a message content is written as, or `None` when it is
/// written as content blocks.
pub fn plain_text(c: &MessageContent) -> (r: Option<String>)
    ensures
        r.deep_view() == plain_text_form(*c),
        r is Some ==> r->0@ == content_text(*c),
        match *c {
            MessageContent::Text(_) => r is Some,
            MessageContent::Blocks(b) => r is Some <==> forall|i: int|
                0 <= i < b@.len() ==> #[trigger] b@[i] is Text,
        },
{
    proof {
        law_only_text_blocks_are_written_as_text(*c);
    }
    match c {
        MessageContent::Text(s) => Some(s.clone()),
        MessageContent::Blocks(blocks) => {
            let mut i: usize = 0;
            while i < blocks.len()
                invariant
                    i <= blocks@.len(),
                    forall|j: int| 0 <= j < i ==> #[trigger] blocks@[j] is Text,
                    plain_text_form(*c) == (if all_text(blocks@) {
                        Some(blocks_text(blocks@))
                    } else {
                        None
                    }),
                decreases blocks@.len() - i,
            {
                match &blocks[i] {
                    ContentBlock::Text { .. } => {},
                    _ => {
                        assert(!(blocks@[i as int] is Text));
                        assert(!all_text(blocks@));
                        return None;
                    },
                }
                i = i + 1;
            }
            Some(c.text())
        },
    }
}


/// A message read from a value takes its tool name from the value's
/// `tool_name` string field (none without one), and its role from the
/// `role` string field, `user` by default.
pub proof fn law_message_fields_are_read(
    v: AgentValue,
    blocks: Result<Vec<ContentBlock>, String>,
    usage: Option<Usage>,
)
    ensures
        message_of(v, blocks, usage) is Ok ==> message_of(v, blocks, usage)->Ok_0.tool_name == text_of(
            field_of(v, "tool_name"@),
        ),
        message_of(v, blocks, usage) is Ok ==> message_of(v, blocks, usage)->Ok_0.role == match text_of(
            field_of(v, "role"@),
        ) {
            Some(role) => role,
            None => "user"@,
        },
{
}

/// Content is written as a plain string exactly when it is text or its
/// blocks are all text blocks, and that string is the content's text: a
/// thinking or image block keeps the content in block form.
pub proof fn law_only_text_blocks_are_written_as_text(c: MessageContent)
    ensures
        plain_text_form(c) is Some ==> plain_text_form(c)->0 == content_text(c),
        match c {
            MessageContent::Text(_) => plain_text_form(c) is Some,
            MessageContent::Blocks(b) => plain_text_form(c) is Some <==> forall|i: int|
                0 <= i < b@.len() ==> #[trigger] b@[i] is Text,
        },
{
}


/// The tool calls read from an array are one per element, in order, each
/// as its element reads.
proof fn lemma_calls_of(items: Seq<AgentValue>)
    ensures
        calls_of(items) is Ok ==> {
            &&& calls_of(items)->Ok_0.len() == items.len()
            &&& forall|j: int|
                0 <= j < items.len() ==> call_of(#[trigger] items[j]) == Ok::<CallView, Seq<char>>(
                    calls_of(items)->Ok_0[j],
                )
        },
    decreases items.len(),
{
    if items.len() > 0 {
        lemma_calls_of(items.drop_last());
        if calls_of(items) is Ok {
            assert forall|j: int| 0 <= j < items.len() implies call_of(#[trigger] items[j]) == Ok::<
                CallView,
                Seq<char>,
            >(calls_of(items)->Ok_0[j]) by {
                if j < items.len() - 1 {
                    assert(items[j] == items.drop_last()[j]);
                }
            }
        }
    }
}

/// A message object is read field by field: its id, stop reason, error
/// mark and usage come from their fields, `streaming` is true only when
/// its field is `true`, an image field that is a string or an image is
/// attached, and each element of a `tool_calls` array gives one tool call,
/// in order, named by its function's `name`, with that function's
/// `parameters` and the element's `id`. A string `content` with no
/// `thinking` string is the message's text. An object without `content`
/// does not decode.
pub proof fn law_message_objects_are_read_field_by_field(
    fields: Vec<(String, AgentValue)>,
    blocks: Result<Vec<ContentBlock>, String>,
    usage: Option<Usage>,
)
    ensures
        ({
            let v = AgentValue::Object(fields);
            let r = message_of(v, blocks, usage);
            &&& field_of(v, "content"@) is None ==> r is Err
            &&& r is Ok ==> {
                let m = r->Ok_0;
                &&& m.id == text_of(field_of(v, "id"@))
                &&& m.stop_reason == text_of(field_of(v, "stop_reason"@))
                &&& m.is_error == bool_of(field_of(v, "is_error"@))
                &&& m.streaming == (bool_of(field_of(v, "streaming"@)) == Some(true))
                &&& m.usage == (if field_of(v, "usage"@) is Some {
                    usage
                } else {
                    None
                })
                &&& (field_of(v, "image"@) matches Some(AgentValue::String(_)) || field_of(v, "image"@) matches Some(AgentValue::Image(_)))
                    ==> m.image == field_of(v, "image"@)
                &&& !(field_of(v, "image"@) matches Some(AgentValue::String(_)) || field_of(v, "image"@) matches Some(AgentValue::Image(_)))
                    ==> m.image is None
                &&& (field_of(v, "content"@) matches Some(AgentValue::String(t)) && !(field_of(v, "thinking"@) matches Some(AgentValue::String(_))))
                    ==> m.content == ContentView::Text(field_of(v, "content"@)->0->String_0@)
                &&& field_of(v, "tool_calls"@) is None ==> m.tool_calls is None
                &&& field_of(v, "tool_calls"@) matches Some(AgentValue::Array(items)) ==> {
                    &&& m.tool_calls is Some
                    &&& m.tool_calls->0.len() == items@.len()
                    &&& forall|j: int|
                        0 <= j < items@.len() ==> {
                            let call = #[trigger] m.tool_calls->0[j];
                            let function = field_of(items@[j], "function"@);
                            &&& function is Some
                            &&& text_of(field_of(function->0, "name"@)) == Some(call.name)
                            &&& field_of(function->0, "parameters"@) == Some(call.parameters)
                            &&& call.id == text_of(field_of(items@[j], "id"@))
                        }
                }
            }
        }),
{
    let v = AgentValue::Object(fields);
    if let Some(AgentValue::Array(items)) = field_of(v, "tool_calls"@) {
        lemma_calls_of(items@);
    }
}

} // verus!
