//! Certificates and keys for serving TLS.

use vstd::prelude::*;

verus! {

/// How TLS is to be served.
#[derive(Debug, PartialEq, Eq)]
pub struct TlsSettings {
    pub tls_enabled: bool,
    /// Whether clients have to show a certificate.
    pub mtls_enabled: bool,
    /// Path to the server certificate.
    pub cert_path: String,
    /// Path to the server key.
    pub key_path: String,
    /// Path to the certificates that client certificates are checked against.
    pub ca_path: String,
}

/// Why TLS cannot be served, in words.
#[derive(Debug, PartialEq, Eq)]
pub struct TlsError {
    pub text: String,
}

/// A private key and its encoding.
#[derive(Debug, PartialEq, Eq)]
pub enum PrivateKey {
    Pkcs8(Vec<u8>),
    Pkcs1(Vec<u8>),
    Sec1(Vec<u8>),
}

/// A section of a PEM file.
#[derive(Debug, PartialEq, Eq)]
pub enum PemItem {
    Key(PrivateKey),
    Other,
}

/// A private key and its encoding.
pub enum KeyView {
    Pkcs8(Seq<u8>),
    Pkcs1(Seq<u8>),
    Sec1(Seq<u8>),
}

impl DeepView for PrivateKey {
    type V = KeyView;

    open spec fn deep_view(&self) -> KeyView {
        match self {
            PrivateKey::Pkcs8(der) => KeyView::Pkcs8(der@),
            PrivateKey::Pkcs1(der) => KeyView::Pkcs1(der@),
            PrivateKey::Sec1(der) => KeyView::Sec1(der@),
        }
    }
}

impl DeepView for PemItem {
    type V = Option<KeyView>;

    /// The key that the section holds, if it holds one.
    open spec fn deep_view(&self) -> Option<KeyView> {
        match self {
            PemItem::Key(key) => Some(key.deep_view()),
            PemItem::Other => None,
        }
    }
}

// ----------------------------------------------------------------------------
// PEM sections
// ----------------------------------------------------------------------------

/// The certificates of a PEM text, or why it cannot be read, as
/// `rustls_pemfile::certs` gives them.
pub uninterp spec fn pem_certificates(pem: Seq<u8>) -> Result<Seq<Seq<u8>>, Seq<char>>;

/// The sections of a PEM text, each with the private key that it holds if it
/// holds one, or why the text cannot be read, as `rustls_pemfile::read_all`
/// gives them.
pub uninterp spec fn pem_sections(pem: Seq<u8>) -> Result<Seq<Option<KeyView>>, Seq<char>>;

/// `rustls_pemfile::certs` on bytes in memory: the encoded certificates in
/// their order, or the text of the first error. Both depend on the bytes
/// alone; how the bytes are decoded is not stated.
#[verifier::external_body]
fn read_certificates(pem: &Vec<u8>) -> (r: Result<Vec<Vec<u8>>, String>)
    ensures
        match r {
            Ok(certs) => pem_certificates(pem@) == Ok::<Seq<Seq<u8>>, Seq<char>>(certs.deep_view()),
            Err(text) => pem_certificates(pem@) == Err::<Seq<Seq<u8>>, Seq<char>>(text@),
        },
{
    let mut reader = std::io::Cursor::new(pem);
    rustls_pemfile::certs(&mut reader)
        .map(|cert| cert.map(|der| der.to_vec()).map_err(|error| error.to_string()))
        .collect()
}

/// `rustls_pemfile::read_all` on bytes in memory: the sections in their order,
/// or the text of the first error. Both depend on the bytes alone; how the
/// bytes are decoded is not stated.
#[verifier::external_body]
fn read_sections(pem: &Vec<u8>) -> (r: Result<Vec<PemItem>, String>)
    ensures
        match r {
            Ok(items) => pem_sections(pem@) == Ok::<Seq<Option<KeyView>>, Seq<char>>(items.deep_view()),
            Err(text) => pem_sections(pem@) == Err::<Seq<Option<KeyView>>, Seq<char>>(text@),
        },
{
    let mut reader = std::io::Cursor::new(pem);
    let convert = |item| match item {
        rustls_pemfile::Item::Pkcs8Key(key) => PemItem::Key(PrivateKey::Pkcs8(key.secret_pkcs8_der().to_vec())),
        rustls_pemfile::Item::Pkcs1Key(key) => PemItem::Key(PrivateKey::Pkcs1(key.secret_pkcs1_der().to_vec())),
        rustls_pemfile::Item::Sec1Key(key) => PemItem::Key(PrivateKey::Sec1(key.secret_sec1_der().to_vec())),
        _ => PemItem::Other,
    };
    rustls_pemfile::read_all(&mut reader)
        .map(|item| item.map(convert).map_err(|error| error.to_string()))
        .collect()
}

// ----------------------------------------------------------------------------
// Certificates and keys
// ----------------------------------------------------------------------------

/// The certificates to serve, or what is wrong with them.
pub open spec fn usable_certs(parsed: Result<Seq<Seq<u8>>, Seq<char>>) -> Result<Seq<Seq<u8>>, Seq<char>> {
    match parsed {
        Ok(certs) => if certs.len() == 0 {
            Err("no certificates found in PEM data"@)
        } else {
            Ok(certs)
        },
        Err(cause) => Err("failed to parse certificates: "@ + cause),
    }
}

/// The key to serve with, which is that of the last section, or what is wrong
/// with it.
pub open spec fn usable_key(parsed: Result<Seq<Option<KeyView>>, Seq<char>>) -> Result<KeyView, Seq<char>> {
    match parsed {
        Ok(sections) => if sections.len() > 0 && sections.last() is Some {
            Ok(sections.last()->0)
        } else {
            Err("no valid private key found in PEM data"@)
        },
        Err(cause) => Err("failed to parse private key: "@ + cause),
    }
}

/// The result `r` is the certificates or the error text that `expected` says.
pub open spec fn certs_are(r: Result<Vec<Vec<u8>>, TlsError>, expected: Result<Seq<Seq<u8>>, Seq<char>>) -> bool {
    match r {
        Ok(certs) => expected == Ok::<Seq<Seq<u8>>, Seq<char>>(certs.deep_view()),
        Err(error) => expected == Err::<Seq<Seq<u8>>, Seq<char>>(error.text@),
    }
}

/// The result `r` is the key or the error text that `expected` says.
pub open spec fn key_is(r: Result<PrivateKey, TlsError>, expected: Result<KeyView, Seq<char>>) -> bool {
    match r {
        Ok(key) => expected == Ok::<KeyView, Seq<char>>(key.deep_view()),
        Err(error) => expected == Err::<KeyView, Seq<char>>(error.text@),
    }
}

/// What was parsed, with its text as characters.
pub open spec fn certs_parsed(parsed: Result<Vec<Vec<u8>>, String>) -> Result<Seq<Seq<u8>>, Seq<char>> {
    match parsed {
        Ok(certs) => Ok(certs.deep_view()),
        Err(text) => Err(text@),
    }
}

/// What was parsed, with its text as characters.
pub open spec fn sections_parsed(parsed: Result<Vec<PemItem>, String>) -> Result<Seq<Option<KeyView>>, Seq<char>> {
    match parsed {
        Ok(items) => Ok(items.deep_view()),
        Err(text) => Err(text@),
    }
}

/// Takes the certificates out of what was parsed.
pub fn take_certs(parsed: Result<Vec<Vec<u8>>, String>) -> (r: Result<Vec<Vec<u8>>, TlsError>)
    ensures
        certs_are(r, usable_certs(certs_parsed(parsed))),
        parsed is Ok && parsed->Ok_0@.len() > 0 ==> r is Ok && r->Ok_0 == parsed->Ok_0,
        parsed is Ok && parsed->Ok_0@.len() == 0 ==> r is Err && r->Err_0.text@ == "no certificates found in PEM data"@,
        parsed is Err ==> r is Err && r->Err_0.text@ == "failed to parse certificates: "@ + parsed->Err_0@,
{
    match parsed {
        Ok(certs) => {
            if certs.len() == 0 {
                return Err(TlsError { text: "no certificates found in PEM data".to_owned() });
            }
            Ok(certs)
        },
        Err(cause) => Err(TlsError { text: "failed to parse certificates: ".to_owned().concat(cause.as_str()) }),
    }
}

/// Takes the private key out of what was parsed.
pub fn take_key(parsed: Result<Vec<PemItem>, String>) -> (r: Result<PrivateKey, TlsError>)
    ensures
        key_is(r, usable_key(sections_parsed(parsed))),
        parsed is Ok && parsed->Ok_0@.len() > 0 && parsed->Ok_0@.last() is Key ==> r is Ok && r->Ok_0
            == parsed->Ok_0@.last()->Key_0,
        parsed is Ok && (parsed->Ok_0@.len() == 0 || parsed->Ok_0@.last() is Other) ==> r is Err && r->Err_0.text@
            == "no valid private key found in PEM data"@,
        parsed is Err ==> r is Err && r->Err_0.text@ == "failed to parse private key: "@ + parsed->Err_0@,
{
    match parsed {
        Ok(items) => {
            let mut items = items;
            match items.pop() {
                Some(PemItem::Key(key)) => Ok(key),
                _ => Err(TlsError { text: "no valid private key found in PEM data".to_owned() }),
            }
        },
        Err(cause) => Err(TlsError { text: "failed to parse private key: ".to_owned().concat(cause.as_str()) }),
    }
}

/// The certificates of a PEM text.
pub fn load_certs(pem: &Vec<u8>) -> (r: Result<Vec<Vec<u8>>, TlsError>)
    ensures
        certs_are(r, usable_certs(pem_certificates(pem@))),
        r is Ok <==> pem_certificates(pem@) is Ok && pem_certificates(pem@)->Ok_0.len() > 0,
        r is Ok ==> r->Ok_0.deep_view() == pem_certificates(pem@)->Ok_0,
        r is Err && pem_certificates(pem@) is Ok ==> r->Err_0.text@ == "no certificates found in PEM data"@,
        pem_certificates(pem@) is Err ==> r is Err && r->Err_0.text@ == "failed to parse certificates: "@
            + pem_certificates(pem@)->Err_0,
{
    take_certs(read_certificates(pem))
}

/// The private key of a PEM text.
pub fn load_private_key(pem: &Vec<u8>) -> (r: Result<PrivateKey, TlsError>)
    ensures
        key_is(r, usable_key(pem_sections(pem@))),
        r is Ok <==> pem_sections(pem@) is Ok && pem_sections(pem@)->Ok_0.len() > 0 && pem_sections(
            pem@,
        )->Ok_0.last() is Some,
        r is Ok ==> r->Ok_0.deep_view() == pem_sections(pem@)->Ok_0.last()->0,
        r is Err && pem_sections(pem@) is Ok ==> r->Err_0.text@ == "no valid private key found in PEM data"@,
        pem_sections(pem@) is Err ==> r is Err && r->Err_0.text@ == "failed to parse private key: "@ + pem_sections(
            pem@,
        )->Err_0,
{
    take_key(read_sections(pem))
}

// ----------------------------------------------------------------------------
// Server configuration
// ----------------------------------------------------------------------------

/// What is missing before TLS can be set up, if anything.
pub open spec fn missing_file(s: TlsSettings, cert_there: bool, key_there: bool, ca_there: bool) -> Option<Seq<char>> {
    if !cert_there {
        Some("server certificate not found: "@ + s.cert_path@)
    } else if !key_there {
        Some("server private key not found: "@ + s.key_path@)
    } else if s.mtls_enabled && !ca_there {
        Some("mTLS enabled but CA certificate not found: "@ + s.ca_path@)
    } else {
        None
    }
}

/// Decides whether TLS is to be set up, given which files are there.
pub fn setup_tls(s: &TlsSettings, cert_there: bool, key_there: bool, ca_there: bool) -> (r: Result<bool, TlsError>)
    ensures
        !s.tls_enabled ==> r == Ok::<bool, TlsError>(false),
        s.tls_enabled ==> match missing_file(*s, cert_there, key_there, ca_there) {
            Some(text) => r is Err && r->Err_0.text@ == text,
            None => r == Ok::<bool, TlsError>(true),
        },
        r is Ok <==> (s.tls_enabled ==> cert_there && key_there && (s.mtls_enabled ==> ca_there)),
        r is Ok ==> r->Ok_0 == s.tls_enabled,
        s.tls_enabled && !cert_there ==> r is Err && r->Err_0.text@ == "server certificate not found: "@ + s.cert_path@,
        s.tls_enabled && cert_there && !key_there ==> r is Err && r->Err_0.text@ == "server private key not found: "@
            + s.key_path@,
        s.tls_enabled && s.mtls_enabled && cert_there && key_there && !ca_there ==> r is Err && r->Err_0.text@
            == "mTLS enabled but CA certificate not found: "@ + s.ca_path@,
{
    if !s.tls_enabled {
        return Ok(false);
    }
    if !cert_there {
        return Err(TlsError { text: "server certificate not found: ".to_owned().concat(s.cert_path.as_str()) });
    }
    if !key_there {
        return Err(TlsError { text: "server private key not found: ".to_owned().concat(s.key_path.as_str()) });
    }
    if s.mtls_enabled && !ca_there {
        return Err(
            TlsError { text: "mTLS enabled but CA certificate not found: ".to_owned().concat(s.ca_path.as_str()) },
        );
    }
    Ok(true)
}

/// What a server configuration is made of.
#[derive(Debug, PartialEq, Eq)]
pub struct ServerParts {
    pub certs: Vec<Vec<u8>>,
    pub key: PrivateKey,
    /// The certificates that client certificates are checked against; `None`
    /// where clients need none.
    pub client_roots: Option<Vec<Vec<u8>>>,
    /// The application protocols, the preferred first.
    pub alpn_protocols: Vec<Vec<u8>>,
}

/// What a server configuration is made of.
#[verifier::ext_equal]
pub struct PartsView {
    pub certs: Seq<Seq<u8>>,
    pub key: KeyView,
    pub client_roots: Option<Seq<Seq<u8>>>,
    pub alpn_protocols: Seq<Seq<u8>>,
}

impl View for ServerParts {
    type V = PartsView;

    open spec fn view(&self) -> PartsView {
        PartsView {
            certs: self.certs.deep_view(),
            key: self.key.deep_view(),
            client_roots: match self.client_roots {
                Some(roots) => Some(roots.deep_view()),
                None => None,
            },
            alpn_protocols: self.alpn_protocols.deep_view(),
        }
    }
}

/// HTTP/2 before HTTP/1.1.
pub open spec fn protocols() -> Seq<Seq<u8>> {
    seq![vstd::utf8::encode_utf8("h2"@), vstd::utf8::encode_utf8("http/1.1"@)]
}

/// What was made of a file: why it could not be read, or what was parsed.
pub open spec fn certs_read(
    read: Result<Result<Vec<Vec<u8>>, String>, String>,
) -> Result<Result<Seq<Seq<u8>>, Seq<char>>, Seq<char>> {
    match read {
        Ok(parsed) => Ok(certs_parsed(parsed)),
        Err(text) => Err(text@),
    }
}

/// What was made of a file: why it could not be read, or what was parsed.
pub open spec fn sections_read(
    read: Result<Result<Vec<PemItem>, String>, String>,
) -> Result<Result<Seq<Option<KeyView>>, Seq<char>>, Seq<char>> {
    match read {
        Ok(parsed) => Ok(sections_parsed(parsed)),
        Err(text) => Err(text@),
    }
}

/// The certificates in a file that was read.
pub open spec fn certs_in(read: Result<Vec<u8>, String>) -> Result<Result<Seq<Seq<u8>>, Seq<char>>, Seq<char>> {
    match read {
        Ok(bytes) => Ok(pem_certificates(bytes@)),
        Err(text) => Err(text@),
    }
}

/// The sections in a file that was read.
pub open spec fn sections_in(
    read: Result<Vec<u8>, String>,
) -> Result<Result<Seq<Option<KeyView>>, Seq<char>>, Seq<char>> {
    match read {
        Ok(bytes) => Ok(pem_sections(bytes@)),
        Err(text) => Err(text@),
    }
}

/// The server configuration that the files make, or the first thing that is
/// wrong: a file that could not be read comes before one that could not be
/// used, and the client roots come last.
pub open spec fn parts_of(
    s: TlsSettings,
    cert: Result<Result<Seq<Seq<u8>>, Seq<char>>, Seq<char>>,
    key: Result<Result<Seq<Option<KeyView>>, Seq<char>>, Seq<char>>,
    ca: Result<Result<Seq<Seq<u8>>, Seq<char>>, Seq<char>>,
) -> Result<PartsView, Seq<char>> {
    match (cert, key) {
        (Err(cause), _) => Err("failed to read server cert "@ + s.cert_path@ + ": "@ + cause),
        (Ok(_), Err(cause)) => Err("failed to read server key "@ + s.key_path@ + ": "@ + cause),
        (Ok(cert), Ok(key)) => match (usable_certs(cert), usable_key(key)) {
            (Err(text), _) => Err(text),
            (Ok(_), Err(text)) => Err(text),
            (Ok(certs), Ok(key)) => if !s.mtls_enabled {
                Ok(PartsView { certs, key, client_roots: None, alpn_protocols: protocols() })
            } else {
                match ca {
                    Err(cause) => Err("failed to read CA cert "@ + s.ca_path@ + ": "@ + cause),
                    Ok(ca) => match usable_certs(ca) {
                        Err(text) => Err(text),
                        Ok(roots) => Ok(
                            PartsView { certs, key, client_roots: Some(roots), alpn_protocols: protocols() },
                        ),
                    },
                }
            },
        },
    }
}

/// The result `r` is the configuration or the error text that `expected` says.
pub open spec fn parts_are(r: Result<ServerParts, TlsError>, expected: Result<PartsView, Seq<char>>) -> bool {
    match r {
        Ok(parts) => expected == Ok::<PartsView, Seq<char>>(parts@),
        Err(error) => expected == Err::<PartsView, Seq<char>>(error.text@),
    }
}

/// The UTF-8 bytes of a text.
fn bytes_in(text: &str) -> (r: Vec<u8>)
    ensures
        r@ == vstd::utf8::encode_utf8(text@),
{
    let mut bytes: Vec<u8> = Vec::new();
    bytes.extend_from_slice(text.as_bytes());
    assert(bytes@ =~= vstd::utf8::encode_utf8(text@));
    bytes
}

/// An error text with a path and a cause.
fn read_failed(what: &str, path: &str, cause: &str) -> (r: TlsError)
    ensures
        r.text@ == what@ + path@ + ": "@ + cause@,
{
    TlsError { text: what.to_owned().concat(path).concat(": ").concat(cause) }
}

/// Puts a server configuration together from what was made of the files. The
/// client roots are needed only where clients have to show a certificate.
pub fn assemble_server_config(
    s: &TlsSettings,
    cert: Result<Result<Vec<Vec<u8>>, String>, String>,
    key: Result<Result<Vec<PemItem>, String>, String>,
    ca: Option<Result<Result<Vec<Vec<u8>>, String>, String>>,
) -> (r: Result<ServerParts, TlsError>)
    requires
        s.mtls_enabled ==> ca is Some,
    ensures
        parts_are(r, parts_of(*s, certs_read(cert), sections_read(key), certs_read(ca->0))),
        r is Ok <==> {
            &&& cert matches Ok(Ok(certs)) && certs@.len() > 0
            &&& key matches Ok(Ok(items)) && items@.len() > 0 && items@.last() is Key
            &&& s.mtls_enabled ==> (ca matches Some(Ok(Ok(roots))) && roots@.len() > 0)
        },
        r is Ok ==> {
            &&& r->Ok_0.certs.deep_view() == cert->Ok_0->Ok_0.deep_view()
            &&& r->Ok_0.key.deep_view() == key->Ok_0->Ok_0@.last()->Key_0.deep_view()
            &&& r->Ok_0.client_roots is Some <==> s.mtls_enabled
            &&& s.mtls_enabled ==> r->Ok_0.client_roots->0.deep_view() == ca->0->Ok_0->Ok_0.deep_view()
            &&& r->Ok_0.alpn_protocols@.len() == 2
            &&& r->Ok_0.alpn_protocols@[0]@ == vstd::utf8::encode_utf8("h2"@)
            &&& r->Ok_0.alpn_protocols@[1]@ == vstd::utf8::encode_utf8("http/1.1"@)
        },
        r is Err ==> r->Err_0.text@ == if cert is Err {
            "failed to read server cert "@ + s.cert_path@ + ": "@ + cert->Err_0@
        } else if key is Err {
            "failed to read server key "@ + s.key_path@ + ": "@ + key->Err_0@
        } else if cert->Ok_0 is Err {
            "failed to parse certificates: "@ + cert->Ok_0->Err_0@
        } else if cert->Ok_0->Ok_0@.len() == 0 {
            "no certificates found in PEM data"@
        } else if key->Ok_0 is Err {
            "failed to parse private key: "@ + key->Ok_0->Err_0@
        } else if key->Ok_0->Ok_0@.len() == 0 || key->Ok_0->Ok_0@.last() is Other {
            "no valid private key found in PEM data"@
        } else if ca->0 is Err {
            "failed to read CA cert "@ + s.ca_path@ + ": "@ + ca->0->Err_0@
        } else if ca->0->Ok_0 is Err {
            "failed to parse certificates: "@ + ca->0->Ok_0->Err_0@
        } else {
            "no certificates found in PEM data"@
        },
{
    let cert = match cert {
        Ok(parsed) => parsed,
        Err(cause) => return Err(read_failed("failed to read server cert ", s.cert_path.as_str(), cause.as_str())),
    };
    let key = match key {
        Ok(parsed) => parsed,
        Err(cause) => return Err(read_failed("failed to read server key ", s.key_path.as_str(), cause.as_str())),
    };
    let certs = match take_certs(cert) {
        Ok(certs) => certs,
        Err(error) => return Err(error),
    };
    let key = match take_key(key) {
        Ok(key) => key,
        Err(error) => return Err(error),
    };
    let mut client_roots: Option<Vec<Vec<u8>>> = None;
    if s.mtls_enabled {
        if let Some(read) = ca {
            let ca = match read {
                Ok(parsed) => parsed,
                Err(cause) => return Err(read_failed("failed to read CA cert ", s.ca_path.as_str(), cause.as_str())),
            };
            match take_certs(ca) {
                Ok(roots) => {
                    client_roots = Some(roots);
                },
                Err(error) => return Err(error),
            }
        }
    }
    let mut alpn_protocols: Vec<Vec<u8>> = Vec::new();
    alpn_protocols.push(bytes_in("h2"));
    alpn_protocols.push(bytes_in("http/1.1"));
    proof {
        assert(alpn_protocols@[0].deep_view() =~= protocols()[0]);
        assert(alpn_protocols@[1].deep_view() =~= protocols()[1]);
        assert(alpn_protocols.deep_view() =~= protocols());
    }
    Ok(ServerParts { certs, key, client_roots, alpn_protocols })
}

/// Parses the certificates of a file that was read.
fn parse_certs(read: Result<Vec<u8>, String>) -> (r: Result<Result<Vec<Vec<u8>>, String>, String>)
    ensures
        certs_read(r) == certs_in(read),
{
    match read {
        Ok(bytes) => Ok(read_certificates(&bytes)),
        Err(text) => Err(text),
    }
}

/// Puts a server configuration together from the files that were read.
pub fn build_server_config(
    s: &TlsSettings,
    cert: Result<Vec<u8>, String>,
    key: Result<Vec<u8>, String>,
    ca: Option<Result<Vec<u8>, String>>,
) -> (r: Result<ServerParts, TlsError>)
    requires
        s.mtls_enabled ==> ca is Some,
    ensures
        parts_are(r, parts_of(*s, certs_in(cert), sections_in(key), certs_in(ca->0))),
        r is Ok <==> {
            &&& cert is Ok && pem_certificates(cert->Ok_0@) is Ok && pem_certificates(cert->Ok_0@)->Ok_0.len() > 0
            &&& key is Ok && pem_sections(key->Ok_0@) is Ok && pem_sections(key->Ok_0@)->Ok_0.len() > 0
            &&& pem_sections(key->Ok_0@)->Ok_0.last() is Some
            &&& s.mtls_enabled ==> ca->0 is Ok && pem_certificates(ca->0->Ok_0@) is Ok && pem_certificates(
                ca->0->Ok_0@,
            )->Ok_0.len() > 0
        },
        r is Ok ==> {
            &&& r->Ok_0.certs.deep_view() == pem_certificates(cert->Ok_0@)->Ok_0
            &&& r->Ok_0.key.deep_view() == pem_sections(key->Ok_0@)->Ok_0.last()->0
            &&& r->Ok_0.client_roots is Some <==> s.mtls_enabled
            &&& s.mtls_enabled ==> r->Ok_0.client_roots->0.deep_view() == pem_certificates(ca->0->Ok_0@)->Ok_0
            &&& r->Ok_0.alpn_protocols@.len() == 2
            &&& r->Ok_0.alpn_protocols@[0]@ == vstd::utf8::encode_utf8("h2"@)
            &&& r->Ok_0.alpn_protocols@[1]@ == vstd::utf8::encode_utf8("http/1.1"@)
        },
        r is Err ==> r->Err_0.text@ == if cert is Err {
            "failed to read server cert "@ + s.cert_path@ + ": "@ + cert->Err_0@
        } else if key is Err {
            "failed to read server key "@ + s.key_path@ + ": "@ + key->Err_0@
        } else if pem_certificates(cert->Ok_0@) is Err {
            "failed to parse certificates: "@ + pem_certificates(cert->Ok_0@)->Err_0
        } else if pem_certificates(cert->Ok_0@)->Ok_0.len() == 0 {
            "no certificates found in PEM data"@
        } else if pem_sections(key->Ok_0@) is Err {
            "failed to parse private key: "@ + pem_sections(key->Ok_0@)->Err_0
        } else if pem_sections(key->Ok_0@)->Ok_0.len() == 0 || pem_sections(key->Ok_0@)->Ok_0.last() is None {
            "no valid private key found in PEM data"@
        } else if ca->0 is Err {
            "failed to read CA cert "@ + s.ca_path@ + ": "@ + ca->0->Err_0@
        } else if pem_certificates(ca->0->Ok_0@) is Err {
            "failed to parse certificates: "@ + pem_certificates(ca->0->Ok_0@)->Err_0
        } else {
            "no certificates found in PEM data"@
        },
{
    let key_parsed = match key {
        Ok(bytes) => Ok(read_sections(&bytes)),
        Err(text) => Err(text),
    };
    let ca_parsed = match ca {
        Some(read) => Some(parse_certs(read)),
        None => None,
    };
    assemble_server_config(s, parse_certs(cert), key_parsed, ca_parsed)
}

} // verus!
