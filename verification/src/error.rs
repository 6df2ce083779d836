use vstd::prelude::*;
use crate::text::{concat2, concat3};

verus! {

/// Errors that occur during agent operations.
///
/// Errors are categorized into:
///
/// - **Configuration errors**: `InvalidConfig`, `UnknownConfig`, `NoConfig`
/// - **Value errors**: `InvalidValue`, `InvalidArrayValue`
/// - **Agent management errors**: `AgentNotFound`, `AgentAlreadyExists`
/// - **Connection errors**: `ConnectionNotFound`, `ConnectionAlreadyExists`
/// - **I/O errors**: `IoError`, `SerializationError`, `JsonParseError`
/// - **Retryable / provider errors**: `RateLimited`, `Overloaded`, `Timeout`, `ContextOverflow`, `Cancelled`
#[derive(Clone, Debug)]
pub enum AgentError {
    /// Invalid value in an array element.
    InvalidArrayValue(String),
    /// Agent definition is invalid.
    InvalidDefinition(String, String),
    /// Invalid port name.
    InvalidPin(String),
    /// Invalid preset name.
    InvalidPresetName(String),
    /// Invalid value for the expected type.
    InvalidValue(String),
    /// Agent definition is missing a required field.
    MissingDefinition(String, String),
    /// Failed to rename a preset.
    RenamePresetFailed(String),
    /// Unknown agent definition kind.
    UnknownDefKind(String),
    /// Unknown agent definition name.
    UnknownDefName(String),
    /// Agent definition is not implemented.
    NotImplemented(String),
    /// An agent with this ID already exists.
    AgentAlreadyExists(String),
    /// Failed to create an agent.
    AgentCreationFailed(String),
    /// Agent with the specified ID was not found.
    AgentNotFound(String),
    /// Source agent in a connection was not found.
    SourceAgentNotFound(String),
    /// Duplicate ID detected.
    DuplicateId(String),
    /// Connection source handle is empty.
    EmptySourceHandle,
    /// Connection target handle is empty.
    EmptyTargetHandle,
    /// A connection between these ports already exists.
    ConnectionAlreadyExists,
    /// Connection with the specified ID was not found.
    ConnectionNotFound(String),
    /// Preset with the specified name was not found.
    PresetNotFound(String),
    /// A preset with this name already exists.
    PresetNameExists(String),
    /// Agent definition was not found.
    AgentDefinitionNotFound(String),
    /// Agent message sender was not found.
    AgentTxNotFound(String),
    /// Failed to send a message to an agent.
    SendMessageFailed(String),
    /// Serialization or deserialization error.
    SerializationError(String),
    /// Message sender is not initialized.
    TxNotInitialized,
    /// I/O error.
    IoError(String),
    /// JSON parsing error.
    JsonParseError(String),
    /// Invalid file extension (expected JSON).
    InvalidFileExtension,
    /// File name is empty.
    EmptyFileName,
    /// Failed to get file stem from path.
    FileSystemError,
    /// Invalid configuration value.
    InvalidConfig(String),
    /// No configuration is available for this agent.
    NoConfig,
    /// Configuration key does not exist.
    UnknownConfig(String),
    /// No global configuration is available.
    NoGlobalConfig,
    /// Port (pin) was not found.
    PinNotFound(String),
    /// Request was rejected because the provider rate limit was exceeded.
    ///
    /// `retry_after` carries the provider's suggested wait duration when a
    /// `Retry-After` header is present.
    RateLimited { message: String, retry_after: Option<std::time::Duration> },
    /// Provider is temporarily overloaded (e.g. HTTP 529).
    Overloaded(String),
    /// Request did not complete within the allotted time.
    Timeout(String),
    /// Request exceeded the model's context window.
    ContextOverflow(String),
    /// Operation was cancelled before completion.
    Cancelled,
    /// Generic agent error.
    Other(String),
}

impl AgentError {
    /// The errors that are transient and may succeed on retry: rate limiting,
    /// provider overload and timeouts.
    pub open spec fn spec_retryable(&self) -> bool {
        ||| self is RateLimited
        ||| self is Overloaded
        ||| self is Timeout
    }

    /// Returns `true` for errors that are transient and may succeed on retry.
    pub fn is_retryable(&self) -> (r: bool)
        ensures
            r == self.spec_retryable(),
    {
        match self {
            AgentError::RateLimited { .. } => true,
            AgentError::Overloaded(_) => true,
            AgentError::Timeout(_) => true,
            _ => false,
        }
    }

    /// The human-readable message of the error, as its `Display` form
    /// shows it.
    pub open spec fn spec_message(&self) -> Seq<char> {
        match self {
            AgentError::InvalidArrayValue(s) => "Invalid "@ + s@ + " value in array"@,
            AgentError::InvalidDefinition(a, b) => a@ + ": Agent definition \""@ + b@ + "\" is invalid"@,
            AgentError::InvalidPin(s) => "Invalid port: "@ + s@,
            AgentError::InvalidPresetName(s) => "Invalid preset name: "@ + s@,
            AgentError::InvalidValue(s) => "Invalid "@ + s@ + " value"@,
            AgentError::MissingDefinition(a, b) => a@ + ": Agent definition \""@ + b@ + "\" is missing"@,
            AgentError::RenamePresetFailed(s) => "Failed to rename preset: "@ + s@,
            AgentError::UnknownDefKind(s) => "Unknown agent def kind: "@ + s@,
            AgentError::UnknownDefName(s) => "Unknown agent def name: "@ + s@,
            AgentError::NotImplemented(s) => "Agent definition \""@ + s@ + "\" is not implemented"@,
            AgentError::AgentAlreadyExists(s) => "Agent "@ + s@ + " already exists"@,
            AgentError::AgentCreationFailed(s) => "Failed to create agent "@ + s@,
            AgentError::AgentNotFound(s) => "Agent "@ + s@ + " not found"@,
            AgentError::SourceAgentNotFound(s) => "Source agent "@ + s@ + " not found"@,
            AgentError::DuplicateId(s) => "Duplicate id: "@ + s@,
            AgentError::EmptySourceHandle => "Source handle is empty"@,
            AgentError::EmptyTargetHandle => "Target handle is empty"@,
            AgentError::ConnectionAlreadyExists => "Connection already exists"@,
            AgentError::ConnectionNotFound(s) => "Connection "@ + s@ + " not found"@,
            AgentError::PresetNotFound(s) => "Preset "@ + s@ + " not found"@,
            AgentError::PresetNameExists(s) => "Preset name \""@ + s@ + "\" already exists"@,
            AgentError::AgentDefinitionNotFound(s) => "Agent "@ + s@ + " definition not found"@,
            AgentError::AgentTxNotFound(s) => "Agent tx for "@ + s@ + " not found"@,
            AgentError::SendMessageFailed(s) => "Failed to send message: "@ + s@,
            AgentError::SerializationError(s) => "Failed to serialize/deserialize: "@ + s@,
            AgentError::TxNotInitialized => "Message sender not initialized"@,
            AgentError::IoError(s) => "IO error: "@ + s@,
            AgentError::JsonParseError(s) => "JSON parsing error: "@ + s@,
            AgentError::InvalidFileExtension => "Invalid file extension: expected JSON"@,
            AgentError::EmptyFileName => "Empty file name"@,
            AgentError::FileSystemError => "Failed to get file stem from path"@,
            AgentError::InvalidConfig(s) => "Configuration error: "@ + s@,
            AgentError::NoConfig => "No configuration available"@,
            AgentError::UnknownConfig(s) => "Unknown configuration: "@ + s@,
            AgentError::NoGlobalConfig => "No global configuration available"@,
            AgentError::PinNotFound(s) => "Pin not found: "@ + s@,
            AgentError::RateLimited { message, .. } => "Rate limited: "@ + message@,
            AgentError::Overloaded(s) => "Provider overloaded: "@ + s@,
            AgentError::Timeout(s) => "Request timed out: "@ + s@,
            AgentError::ContextOverflow(s) => "Context overflow: "@ + s@,
            AgentError::Cancelled => "Cancelled"@,
            AgentError::Other(s) => "Agent error: "@ + s@,
        }
    }

    /// The human-readable message of the error (its `Display` form).
    pub fn to_string(&self) -> (r: String)
        ensures
            r@ == self.spec_message(),
    {
        match self {
            AgentError::InvalidArrayValue(s) => concat3("Invalid ", s.as_str(), " value in array"),
            AgentError::InvalidDefinition(a, b) => {
                let mut r = concat3(a.as_str(), ": Agent definition \"", b.as_str());
                r.append("\" is invalid");
                r
            },
            AgentError::InvalidPin(s) => concat2("Invalid port: ", s.as_str()),
            AgentError::InvalidPresetName(s) => concat2("Invalid preset name: ", s.as_str()),
            AgentError::InvalidValue(s) => concat3("Invalid ", s.as_str(), " value"),
            AgentError::MissingDefinition(a, b) => {
                let mut r = concat3(a.as_str(), ": Agent definition \"", b.as_str());
                r.append("\" is missing");
                r
            },
            AgentError::RenamePresetFailed(s) => concat2("Failed to rename preset: ", s.as_str()),
            AgentError::UnknownDefKind(s) => concat2("Unknown agent def kind: ", s.as_str()),
            AgentError::UnknownDefName(s) => concat2("Unknown agent def name: ", s.as_str()),
            AgentError::NotImplemented(s) => concat3("Agent definition \"", s.as_str(), "\" is not implemented"),
            AgentError::AgentAlreadyExists(s) => concat3("Agent ", s.as_str(), " already exists"),
            AgentError::AgentCreationFailed(s) => concat2("Failed to create agent ", s.as_str()),
            AgentError::AgentNotFound(s) => concat3("Agent ", s.as_str(), " not found"),
            AgentError::SourceAgentNotFound(s) => concat3("Source agent ", s.as_str(), " not found"),
            AgentError::DuplicateId(s) => concat2("Duplicate id: ", s.as_str()),
            AgentError::EmptySourceHandle => String::from_str("Source handle is empty"),
            AgentError::EmptyTargetHandle => String::from_str("Target handle is empty"),
            AgentError::ConnectionAlreadyExists => String::from_str("Connection already exists"),
            AgentError::ConnectionNotFound(s) => concat3("Connection ", s.as_str(), " not found"),
            AgentError::PresetNotFound(s) => concat3("Preset ", s.as_str(), " not found"),
            AgentError::PresetNameExists(s) => concat3("Preset name \"", s.as_str(), "\" already exists"),
            AgentError::AgentDefinitionNotFound(s) => concat3("Agent ", s.as_str(), " definition not found"),
            AgentError::AgentTxNotFound(s) => concat3("Agent tx for ", s.as_str(), " not found"),
            AgentError::SendMessageFailed(s) => concat2("Failed to send message: ", s.as_str()),
            AgentError::SerializationError(s) => concat2("Failed to serialize/deserialize: ", s.as_str()),
            AgentError::TxNotInitialized => String::from_str("Message sender not initialized"),
            AgentError::IoError(s) => concat2("IO error: ", s.as_str()),
            AgentError::JsonParseError(s) => concat2("JSON parsing error: ", s.as_str()),
            AgentError::InvalidFileExtension => String::from_str("Invalid file extension: expected JSON"),
            AgentError::EmptyFileName => String::from_str("Empty file name"),
            AgentError::FileSystemError => String::from_str("Failed to get file stem from path"),
            AgentError::InvalidConfig(s) => concat2("Configuration error: ", s.as_str()),
            AgentError::NoConfig => String::from_str("No configuration available"),
            AgentError::UnknownConfig(s) => concat2("Unknown configuration: ", s.as_str()),
            AgentError::NoGlobalConfig => String::from_str("No global configuration available"),
            AgentError::PinNotFound(s) => concat2("Pin not found: ", s.as_str()),
            AgentError::RateLimited { message, .. } => concat2("Rate limited: ", message.as_str()),
            AgentError::Overloaded(s) => concat2("Provider overloaded: ", s.as_str()),
            AgentError::Timeout(s) => concat2("Request timed out: ", s.as_str()),
            AgentError::ContextOverflow(s) => concat2("Context overflow: ", s.as_str()),
            AgentError::Cancelled => String::from_str("Cancelled"),
            AgentError::Other(s) => concat2("Agent error: ", s.as_str()),
        }
    }
}

} // verus!
