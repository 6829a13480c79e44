//! Connections to upstream servers over TLS: whom to trust, and how a session starts.
use crate::rule::{ProxyRule, UpstreamScheme, UpstreamView};
use rustls::pki_types::{Der, InvalidDnsNameError, ServerName, TrustAnchor};
use rustls::{ClientConfig, ClientConnection, RootCertStore};
use vstd::prelude::*;

verus! {

/// A set of certificate authorities to trust.
#[verifier::external_type_specification]
#[verifier::external_body]
pub struct ExRootCertStore(rustls::RootCertStore);

/// The name of a server: a DNS name or an IP address.
#[verifier::external_type_specification]
#[verifier::external_body]
pub struct ExServerName<'a>(rustls::pki_types::ServerName<'a>);

/// Says that a text is not the name of a server.
#[verifier::external_type_specification]
#[verifier::external_body]
pub struct ExInvalidDnsNameError(rustls::pki_types::InvalidDnsNameError);

/// How TLS sessions are made.
#[verifier::external_type_specification]
#[verifier::external_body]
pub struct ExClientConfig(rustls::ClientConfig);

/// A TLS session with a server.
#[verifier::external_type_specification]
#[verifier::external_body]
pub struct ExClientConnection(rustls::ClientConnection);

/// Why a TLS session could not be made.
#[verifier::external_type_specification]
#[verifier::external_body]
pub struct ExTlsFailure(rustls::Error);

/// A certificate authority: its name, its public key and the names that it may vouch
/// for, each as it stands in its certificate.
#[derive(Debug)]
pub struct Anchor {
    pub subject: Vec<u8>,
    pub public_key: Vec<u8>,
    pub constraints: Option<Vec<u8>>,
}

/// What an `Anchor` holds.
#[verifier::ext_equal]
pub struct AnchorView {
    pub subject: Seq<u8>,
    pub public_key: Seq<u8>,
    pub constraints: Option<Seq<u8>>,
}

impl View for Anchor {
    type V = AnchorView;

    open spec fn view(&self) -> AnchorView {
        AnchorView {
            subject: self.subject@,
            public_key: self.public_key@,
            constraints: match self.constraints {
                Some(constraints) => Some(constraints@),
                None => None,
            },
        }
    }
}

/// The authorities in a store, in order.
pub uninterp spec fn roots(store: RootCertStore) -> Seq<AnchorView>;

/// The authority at a position of `webpki_roots::TLS_SERVER_ROOTS`, a fixed list.
pub uninterp spec fn mozilla_root(i: nat) -> Option<AnchorView>;

/// The name of a server that a text spells for `ServerName::try_from`.
pub uninterp spec fn server_name_in(host: Seq<char>) -> Option<ServerName<'static>>;

/// The authorities that a configuration makes sessions trust.
pub uninterp spec fn trusted_by(config: ClientConfig) -> Seq<AnchorView>;

/// The authorities that a session trusts to vouch for its server.
pub uninterp spec fn session_roots(session: ClientConnection) -> Seq<AnchorView>;

/// The server that a session is with.
pub uninterp spec fn session_server(session: ClientConnection) -> ServerName<'static>;

/// What `rustls::Error` writes of itself.
pub uninterp spec fn failure_text(failure: rustls::Error) -> Seq<char>;

/// `RootCertStore::empty` makes a store with no authority in it.
pub assume_specification[ RootCertStore::empty ]() -> (r: RootCertStore)
    ensures
        roots(r) == Seq::<AnchorView>::empty(),
;

/// `Extend::extend` on a `RootCertStore` adds the authorities that it is given after
/// those in the store; here it is given one.
#[verifier::external_body]
fn add_root(store: &mut RootCertStore, anchor: Anchor)
    ensures
        roots(*final(store)) == roots(*old(store)).push(anchor@),
{
    store.extend([TrustAnchor {
        subject: Der::from(anchor.subject),
        subject_public_key_info: Der::from(anchor.public_key),
        name_constraints: anchor.constraints.map(Der::from),
    }]);
}

/// `webpki_roots::TLS_SERVER_ROOTS` at a position, nothing beyond its end.
#[verifier::external_body]
fn mozilla_root_at(i: usize) -> (r: Option<Anchor>)
    ensures
        r is Some <==> mozilla_root(i as nat) is Some,
        r matches Some(anchor) ==> mozilla_root(i as nat) == Some(anchor@),
{
    let root = webpki_roots::TLS_SERVER_ROOTS.get(i)?;
    Some(Anchor {
        subject: root.subject.to_vec(),
        public_key: root.subject_public_key_info.to_vec(),
        constraints: root.name_constraints.as_ref().map(|der| der.to_vec()),
    })
}

/// `ServerName::try_from` reads a DNS name or an IP address; what it makes of a text
/// depends on the text alone.
#[verifier::external_body]
fn server_name(host: &str) -> (r: Result<ServerName<'static>, InvalidDnsNameError>)
    ensures
        match r {
            Ok(name) => server_name_in(host@) == Some(name),
            Err(_) => server_name_in(host@) is None,
        },
{
    ServerName::try_from(host.to_owned())
}

/// `ClientConfig::builder`, `with_root_certificates` and `with_no_client_auth` make a
/// configuration whose sessions trust the authorities in a store and show no certificate
/// of their own. The builder takes the one cryptography provider that the features of
/// `rustls` select.
#[verifier::external_body]
fn client_config(store: RootCertStore) -> (r: ClientConfig)
    ensures
        trusted_by(r) == roots(store),
{
    ClientConfig::builder().with_root_certificates(store).with_no_client_auth()
}

/// `ClientConnection::new` starts a session with a server under a configuration. It
/// draws random numbers, so it may fail on any input; a session that it makes is with
/// that server and trusts whom the configuration trusts.
#[verifier::external_body]
fn client_connection(config: ClientConfig, name: ServerName<'static>) -> (r: Result<
    ClientConnection,
    rustls::Error,
>)
    ensures
        r matches Ok(session) ==> session_roots(session) == trusted_by(config) && session_server(
            session,
        ) == name,
{
    ClientConnection::new(std::sync::Arc::new(config), name)
}

/// `rustls::Error` written as text.
#[verifier::external_body]
fn describe(failure: &rustls::Error) -> (r: String)
    ensures
        r@ == failure_text(*failure),
{
    format!("{failure}")
}

/// Why a TLS session with an upstream server could not be started.
#[derive(Debug)]
pub enum TlsError {
    /// The host of the server is not the name of one.
    InvalidHost,
    /// The session could not be made, for this reason.
    Setup(String),
}

impl TlsError {
    /// The error in words.
    pub open spec fn text(self) -> Seq<char> {
        match self {
            TlsError::InvalidHost => "invalid upstream host"@,
            TlsError::Setup(reason) => "TLS setup failed: "@ + reason@,
        }
    }

    /// Puts the error in words.
    pub fn message(&self) -> (r: String)
        ensures
            r@ == self.text(),
    {
        match self {
            TlsError::InvalidHost => "invalid upstream host".to_owned(),
            TlsError::Setup(reason) => {
                let mut out = "TLS setup failed: ".to_owned();
                out.append(reason.as_str());
                out
            },
        }
    }
}

/// Whether `anchors` are all of the list of authorities that comes with the library, in
/// order, or as many as can be counted.
pub open spec fn is_default(anchors: Seq<AnchorView>) -> bool {
    &&& forall|i: int| 0 <= i < anchors.len() ==> mozilla_root(i as nat) == Some(#[trigger] anchors[i])
    &&& mozilla_root(anchors.len()) is None || anchors.len() == usize::MAX
}

/// The authorities that upstream servers are trusted by.
pub fn default_root_store() -> (r: RootCertStore)
    ensures
        is_default(roots(r)),
{
    let mut store = RootCertStore::empty();
    let mut i: usize = 0;
    while i < usize::MAX
        invariant
            roots(store).len() == i,
            forall|j: int|
                0 <= j < i ==> mozilla_root(j as nat) == Some(#[trigger] roots(store)[j]),
        decreases usize::MAX - i,
    {
        match mozilla_root_at(i) {
            Some(anchor) => {
                add_root(&mut store, anchor);
            },
            None => {
                return store;
            },
        }
        i = i + 1;
    }
    store
}

/// What comes of starting a session, whatever came back.
pub fn session_started(made: Result<ClientConnection, rustls::Error>) -> (r: Result<
    Option<ClientConnection>,
    TlsError,
>)
    ensures
        match made {
            Ok(session) => r == Ok::<Option<ClientConnection>, TlsError>(Some(session)),
            Err(failure) => r matches Err(TlsError::Setup(reason)) && reason@ == failure_text(
                failure,
            ),
        },
{
    match made {
        Ok(session) => Ok(Some(session)),
        Err(failure) => Err(TlsError::Setup(describe(&failure))),
    }
}

/// Whether `started` can come of starting a session with an upstream server: none where it
/// speaks no TLS, one with that very server where it does, and an error that says whether its
/// host is the name of a server.
pub open spec fn fits(
    upstream: UpstreamView,
    started: Result<Option<ClientConnection>, TlsError>,
) -> bool {
    match upstream.scheme {
        UpstreamScheme::Http => started matches Ok(None),
        UpstreamScheme::Https => match started {
            Ok(None) => false,
            Ok(Some(session)) => server_name_in(upstream.host) == Some(session_server(session)),
            Err(TlsError::InvalidHost) => server_name_in(upstream.host) is None,
            Err(TlsError::Setup(_)) => server_name_in(upstream.host) is Some,
        },
    }
}

/// Starts a TLS session with the upstream server of a rule, where it speaks TLS. The
/// session trusts the authorities in `root_store` alone, and no server but that one.
pub fn connect_upstream_with_root_store(proxy: &ProxyRule, root_store: RootCertStore) -> (r: Result<
    Option<ClientConnection>,
    TlsError,
>)
    ensures
        fits(proxy@.upstream, r),
        r matches Ok(Some(session)) ==> session_roots(session) == roots(root_store),
{
    match proxy.upstream.scheme {
        UpstreamScheme::Http => Ok(None),
        UpstreamScheme::Https => {
            let config = client_config(root_store);
            let name = match server_name(proxy.upstream.host.as_str()) {
                Ok(name) => name,
                Err(_) => {
                    return Err(TlsError::InvalidHost);
                },
            };
            session_started(client_connection(config, name))
        },
    }
}

/// Starts a TLS session with the upstream server of a rule, where it speaks TLS, trusting
/// the authorities that upstream servers are trusted by.
pub fn connect_upstream(proxy: &ProxyRule) -> (r: Result<Option<ClientConnection>, TlsError>)
    ensures
        fits(proxy@.upstream, r),
        r matches Ok(Some(session)) ==> is_default(session_roots(session)),
{
    connect_upstream_with_root_store(proxy, default_root_store())
}

} // verus!
