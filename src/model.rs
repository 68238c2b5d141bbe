//! The tag document and the operator's form inputs.

use vstd::prelude::*;

verus! {

/// One physical tag ("imán"), as the store holds it. Instants are
/// milliseconds since the Unix epoch.
pub struct Iman {
    /// Identity assigned by the store, as its twelve raw bytes.
    pub id: Option<[u8; 12]>,
    /// Unique human-readable code scanned from the tag.
    pub codigo: String,
    /// Where a scan is redirected once the tag is configured.
    pub target_url: Option<String>,
    /// Set once a target URL has been accepted.
    pub active: bool,
    /// Number of resolution requests that found this tag.
    pub visitas: u32,
    /// When the tag was configured.
    pub activated_at: Option<i64>,
    /// When the tag was last resolved.
    pub last_scan_at: Option<i64>,
    /// Set once the tag has appeared in an export of unassigned tags.
    pub exported: bool,
    /// Name of the provisioning run that created the tag.
    pub lote_nombre: Option<String>,
    /// Instant of the provisioning run that created the tag.
    pub lote_fecha: Option<i64>,
}

/// The configuration form: the tag's code and the URL it should lead to.
pub struct SetupForm {
    pub codigo: String,
    pub target_url: String,
}

/// The operator's login form.
pub struct LoginForm {
    pub password: String,
}

/// A request to provision `cantidad` tags under the batch name `nombre_lote`.
pub struct GenerateLoteRequest {
    pub cantidad: i32,
    pub nombre_lote: String,
}

/// Optional instant that singles out one batch among batches of equal name.
pub struct ExportQuery {
    pub ts: Option<i64>,
}

} // verus!
