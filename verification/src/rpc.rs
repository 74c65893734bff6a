//! The RPC surface as a state machine: a connection moves from
//! uninitialized through initialized to serving and finally closed;
//! requests before initialization and after closing are protocol errors,
//! and the one-shot startup announcement is handed out exactly once. The
//! wire transport around this lives outside the library.

use vstd::prelude::*;

use crate::error::ServerError;
use crate::registry::Registry;
use crate::text::{chars_vec, string_from_chars};
use vstd::string::StringExecFns;

verus! {

/// Lifecycle phase of one connection.
#[derive(Debug, Clone, Copy, PartialEq, Eq, Structural)]
pub enum ConnectionPhase {
    Uninitialized,
    Initialized,
    Serving,
    Closed,
}

/// One client connection: its phase and the startup announcement still
/// owed, if any.
pub struct Connection {
    /// Lifecycle phase.
    pub phase: ConnectionPhase,
    /// Announcement to deliver with the first successful tool call.
    pub startup_message: Option<String>,
}

/// A request of the RPC surface, already parsed off the wire.
pub enum Request {
    QueryDocumentation { package: String, question: String },
    ListResources,
    ReadResource { uri: String },
    ListTools,
    ListPrompts,
    ListResourceTemplates,
}

/// What the dispatcher decides: either a finished enumeration, or the task
/// the caller must perform to answer a query.
pub enum Reply {
    /// Run the query pipeline for this package and question.
    QueryTask { package: String, question: String },
    /// The resource URIs of the loaded packages.
    Resources(Vec<String>),
    /// The content of one resource.
    ResourceText { uri: String, text: String },
    /// The fixed tool list.
    Tools,
    /// No prompts are defined.
    Prompts,
    /// No resource templates are defined.
    ResourceTemplates,
}

impl Connection {
    /// A fresh connection owing the given startup announcement.
    pub fn new(startup_message: String) -> (r: Self)
        ensures
            r.phase == ConnectionPhase::Uninitialized,
            r.startup_message == Some(startup_message),
    {
        Connection { phase: ConnectionPhase::Uninitialized, startup_message: Some(startup_message) }
    }

    /// Initialization succeeds exactly once, on a fresh connection.
    pub fn on_initialize(&mut self) -> (r: Result<(), ServerError>)
        ensures
            r is Ok <==> old(self).phase == ConnectionPhase::Uninitialized,
            r is Ok ==> final(self).phase == ConnectionPhase::Initialized,
            r is Err ==> final(self).phase == old(self).phase && (r matches Err(e)
                && e is ProtocolError),
            final(self).startup_message == old(self).startup_message,
    {
        if matches!(self.phase, ConnectionPhase::Uninitialized) {
            self.phase = ConnectionPhase::Initialized;
            Ok(())
        } else {
            Err(ServerError::ProtocolError(String::from_str("connection already initialized")))
        }
    }

    /// Close the connection; no further traffic is accepted.
    pub fn on_close(&mut self)
        ensures
            final(self).phase == ConnectionPhase::Closed,
            final(self).startup_message == old(self).startup_message,
    {
        self.phase = ConnectionPhase::Closed;
    }

    /// The connection accepts requests after initialization and before
    /// closing.
    pub open spec fn accepts_requests(self) -> bool {
        self.phase == ConnectionPhase::Initialized || self.phase == ConnectionPhase::Serving
    }

    /// Hand out the startup announcement: the owed message the first time,
    /// nothing afterwards.
    pub fn take_startup_announcement(&mut self) -> (r: Option<String>)
        ensures
            r == old(self).startup_message,
            final(self).startup_message is None,
            final(self).phase == old(self).phase,
    {
        self.startup_message.take()
    }

    /// Dispatch one request. Before initialization or after closing every
    /// request is rejected with a protocol error and nothing changes; an
    /// accepted request moves the connection to serving and yields either
    /// the finished enumeration or the query task the caller must run.
    pub fn handle_request(&mut self, registry: &Registry, request: Request) -> (r: Result<
        Reply,
        ServerError,
    >)
        ensures
            final(self).startup_message == old(self).startup_message,
            !old(self).accepts_requests() ==> final(self).phase == old(self).phase && (r matches Err(
                e,
            ) && e is ProtocolError),
            old(self).accepts_requests() ==> final(self).phase == ConnectionPhase::Serving,
            old(self).accepts_requests() ==> match request {
                Request::QueryDocumentation { package, question } => r matches Ok(
                    Reply::QueryTask { package: p, question: q },
                ) && p == package && q == question,
                Request::ListResources => r matches Ok(Reply::Resources(uris)) && uris@.len()
                    == registry.entries@.len() && (forall|k: int|
                    0 <= k < uris@.len() ==> (#[trigger] uris@[k])@ == "crate://"@
                        + registry.entries@[k].name@),
                Request::ReadResource { uri } => match r {
                    Ok(reply) => reply matches Reply::ResourceText { uri: u, text } && u == uri
                        && registry.has_entry(text@) && uri@ == "crate://"@ + text@,
                    Err(e) => (e is ProtocolError && !is_crate_uri(uri@)) || (e matches ServerError::UnknownPackage {
                        package,
                        available,
                        similar,
                    } && uri@ == "crate://"@ + package@ && !registry.has_entry(package@)
                        && available@.len() == registry.entries@.len() && (forall|k: int|
                        0 <= k < available@.len() ==> (#[trigger] available@[k])@
                            == registry.entries@[k].name@) && similar@
                        == crate::crate_discovery::matches_model(registry.renderable@, package@)),
                },
                Request::ListTools => r matches Ok(reply) && reply is Tools,
                Request::ListPrompts => r matches Ok(reply) && reply is Prompts,
                Request::ListResourceTemplates => r matches Ok(reply)
                    && reply is ResourceTemplates,
            },
    {
        if !(matches!(self.phase, ConnectionPhase::Initialized) || matches!(
            self.phase,
            ConnectionPhase::Serving,
        )) {
            return Err(
                ServerError::ProtocolError(
                    String::from_str("request outside the serving phases"),
                ),
            );
        }
        self.phase = ConnectionPhase::Serving;
        match request {
            Request::QueryDocumentation { package, question } => Ok(
                Reply::QueryTask { package, question },
            ),
            Request::ListResources => {
                let names = registry.loaded_names();
                let n = names.len();
                let mut uris: Vec<String> = Vec::new();
                let mut i: usize = 0;
                while i < n
                    invariant
                        i <= n,
                        n == names@.len(),
                        n == registry.entries@.len(),
                        forall|k: int|
                            0 <= k < n ==> (#[trigger] names@[k])@ == registry.entries@[k].name@,
                        uris@.len() == i,
                        forall|k: int|
                            0 <= k < i ==> (#[trigger] uris@[k])@ == "crate://"@
                                + registry.entries@[k].name@,
                    decreases n - i,
                {
                    let mut uri = String::from_str("crate://");
                    uri.append(names[i].as_str());
                    uris.push(uri);
                    i = i + 1;
                }
                Ok(Reply::Resources(uris))
            },
            Request::ReadResource { uri } => {
                match strip_crate_uri(uri.as_str()) {
                    Some(name) => {
                        match registry.get_entry(name.as_str()) {
                            Some(_) => Ok(Reply::ResourceText { uri, text: name }),
                            None => {
                                let available = registry.loaded_names();
                                let similar = crate::crate_discovery::find_matching_crate_names(
                                    name.as_str(),
                                    &registry.renderable,
                                );
                                Err(
                                    ServerError::UnknownPackage {
                                        package: name,
                                        available,
                                        similar,
                                    },
                                )
                            },
                        }
                    },
                    None => Err(
                        ServerError::ProtocolError(
                            String::from_str("resource uri is not of the crate scheme"),
                        ),
                    ),
                }
            },
            Request::ListTools => Ok(Reply::Tools),
            Request::ListPrompts => Ok(Reply::Prompts),
            Request::ListResourceTemplates => Ok(Reply::ResourceTemplates),
        }
    }
}

/// The URI is of the crate scheme: `crate://` followed by a name.
pub open spec fn is_crate_uri(uri: Seq<char>) -> bool {
    exists|n: Seq<char>| uri == #[trigger] ("crate://"@ + n)
}

/// The package a `crate://` URI names: `Some` exactly when the URI is of
/// that scheme.
pub fn strip_crate_uri(uri: &str) -> (r: Option<String>)
    ensures
        match r {
            Some(name) => uri@ == "crate://"@ + name@,
            None => !is_crate_uri(uri@),
        },
{
    let cs = chars_vec(uri);
    let prefix = chars_vec("crate://");
    proof {
        reveal_strlit("crate://");
    }
    if cs.len() < prefix.len() {
        proof {
            assert(!is_crate_uri(uri@)) by {
                if is_crate_uri(uri@) {
                    let n = choose|n: Seq<char>| uri@ == #[trigger] ("crate://"@ + n);
                    assert(uri@.len() >= "crate://"@.len());
                }
            }
        }
        return None;
    }
    let m = prefix.len();
    let mut i: usize = 0;
    while i < m
        invariant
            i <= m,
            m == prefix@.len(),
            m <= cs@.len(),
            cs@ == uri@,
            prefix@ == "crate://"@,
            forall|j: int| 0 <= j < i ==> cs@[j] == prefix@[j],
        decreases m - i,
    {
        if !(cs[i] == prefix[i]) {
            proof {
                assert(!is_crate_uri(uri@)) by {
                    if is_crate_uri(uri@) {
                        let n = choose|n: Seq<char>| uri@ == #[trigger] ("crate://"@ + n);
                        assert(uri@[i as int] == ("crate://"@ + n)[i as int]);
                        assert(uri@[i as int] == "crate://"@[i as int]);
                    }
                }
            }
            return None;
        }
        i = i + 1;
    }
    let mut rest: Vec<char> = Vec::new();
    let mut k: usize = m;
    while k < cs.len()
        invariant
            m <= k <= cs@.len(),
            cs@ == uri@,
            rest@ == cs@.subrange(m as int, k as int),
        decreases cs@.len() - k,
    {
        rest.push(cs[k]);
        assert(rest@ == cs@.subrange(m as int, k + 1));
        k = k + 1;
    }
    proof {
        assert(uri@ =~= "crate://"@ + cs@.subrange(m as int, cs@.len() as int));
    }
    Some(string_from_chars(&rest))
}

} // verus!
