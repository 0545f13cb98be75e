use vstd::prelude::*;

verus! {

/// Something that completes a TLS server configuration with its certificate:
/// a certificate chain with its private key, or a resolver that picks one per
/// connection. `Builder`, `Config` and `Error` are the TLS library's builder
/// awaiting a certificate, its finished server configuration and its error.
/// Whether a key is accepted is for that library to decide, so no outcome is
/// promised here.
pub trait CertificateAndKey<Builder, Config, Error>: Sized {
    /// Completes `builder` with this certificate.
    fn apply_to(self, builder: Builder) -> Result<Config, Error>;
}

} // verus!
