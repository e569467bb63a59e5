//! Parsing of configuration values from their textual form.

use crate::config::metrics::PushProtocol;
use vstd::prelude::*;
use vstd::string::StringExecFns;

verus! {

/// Why a configuration value could not be parsed.
#[derive(Debug, PartialEq, Eq)]
pub enum ConfigParseError {
    /// The text is not one of the values the option accepts; holds the text.
    InvalidValue(String),
}

impl ConfigParseError {
    /// A sentence that names the rejected text.
    pub open spec fn message_spec(self) -> Seq<char> {
        match self {
            ConfigParseError::InvalidValue(text) => "invalid value: "@ + text@,
        }
    }

    /// Renders the error as a sentence that names the rejected text.
    pub fn message(&self) -> (s: String)
        ensures
            s@ == self.message_spec(),
    {
        match self {
            ConfigParseError::InvalidValue(text) => {
                String::from_str("invalid value: ").concat(text.as_str())
            },
        }
    }
}

/// What a text parses to as a push protocol: `http` and `grpc`, in lower
/// case, name the two protocols; nothing else is accepted.
pub open spec fn parse_push_protocol_spec(text: Seq<char>) -> Option<PushProtocol> {
    if text == "http"@ {
        Some(PushProtocol::HTTP)
    } else if text == "grpc"@ {
        Some(PushProtocol::GRPC)
    } else {
        None
    }
}

/// Parses the name of a metrics push protocol.
pub fn parse_metrics_push_protocol(s: &str) -> (parsed: Result<PushProtocol, ConfigParseError>)
    ensures
        match parsed {
            Ok(protocol) => parse_push_protocol_spec(s@) == Some(protocol),
            Err(ConfigParseError::InvalidValue(text)) => {
                &&& parse_push_protocol_spec(s@) is None
                &&& text@ == s@
            },
        },
{
    let text = String::from_str(s);
    if text == String::from_str("http") {
        Ok(PushProtocol::HTTP)
    } else if text == String::from_str("grpc") {
        Ok(PushProtocol::GRPC)
    } else {
        Err(ConfigParseError::InvalidValue(text))
    }
}

/// Every protocol parses back from its own name.
pub proof fn lemma_push_protocol_name_round_trip(protocol: PushProtocol)
    ensures
        parse_push_protocol_spec(protocol.name()) == Some(protocol),
{
    reveal_strlit("http");
    reveal_strlit("grpc");
    assert("grpc"@[0] == 'g');
    assert("http"@[0] == 'h');
}

} // verus!
