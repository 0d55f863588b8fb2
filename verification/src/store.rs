//! Packages: whether their contents are intact, and which Realm they may
//! run in.
//!
//! Placement above Home is a credential, not a declaration. A package may
//! ask for a Realm in its manifest, but the request is only ever compared
//! with the answer. There is no verifier for publisher signatures yet, and
//! its absence denies: nothing is elevated.
use vstd::prelude::*;
use crate::abi::{capability_bits, realm_kind};
use crate::bytes::{self, bytes_eq, read_u32};
use crate::fs::{self, FileSystem};
use crate::realm::{self, RealmProfile};
use crate::security::sha256::{self, digests_equal, Sha256};
use crate::settings::{self, line_end, read_line, Line};
use crate::text::{self, chars_of, from_utf8, push_decimal, text_eq};

verus! {

broadcast use vstd::slice::group_slice_axioms;

/// What every package starts with.
pub const MAGIC: [u8; 8] = [0x4E, 0x41, 0x4A, 0x4D, 0x50, 0x4B, 0x47, 0];

/// The version of the format.
pub const VERSION: u32 = 1;

/// A package is its magic, the version, the manifest's length and the
/// digest of everything after the header; then the manifest, then the
/// files. One digest covers manifest and files together, so a package
/// cannot be put together from the halves of two.
pub const HEADER_SIZE: usize = 48;

// ---------------------------------------------------------------------
// Manifests
// ---------------------------------------------------------------------

/// What a package claims about itself.
#[derive(Debug)]
pub struct Manifest {
    pub id: String,
    pub name: String,
    pub version: String,
    pub publisher: String,
    /// The program to run, as a path inside the package.
    pub entry: String,
    /// What the package would like. Never used as the answer.
    pub requested_realm: u64,
    /// The rights the package asks for.
    pub requested_capabilities: u64,
}

/// What a package claims about itself.
pub struct ManifestView {
    pub id: Seq<char>,
    pub name: Seq<char>,
    pub version: Seq<char>,
    pub publisher: Seq<char>,
    pub entry: Seq<char>,
    pub requested_realm: u64,
    pub requested_capabilities: u64,
}

impl View for Manifest {
    type V = ManifestView;

    open spec fn view(&self) -> ManifestView {
        ManifestView {
            id: self.id@,
            name: self.name@,
            version: self.version@,
            publisher: self.publisher@,
            entry: self.entry@,
            requested_realm: self.requested_realm,
            requested_capabilities: self.requested_capabilities,
        }
    }
}

/// The right with a given name.
pub open spec fn right_named(name: Seq<char>) -> Option<u64> {
    if name == "serial_write"@ {
        Some(capability_bits::SERIAL_WRITE)
    } else if name == "timer_read"@ {
        Some(capability_bits::TIMER_READ)
    } else if name == "file_read"@ {
        Some(capability_bits::FILE_READ)
    } else if name == "file_write"@ {
        Some(capability_bits::FILE_WRITE)
    } else if name == "process_spawn"@ {
        Some(capability_bits::PROCESS_SPAWN)
    } else if name == "ipc_create"@ {
        Some(capability_bits::IPC_CREATE)
    } else if name == "ipc_connect"@ {
        Some(capability_bits::IPC_CONNECT)
    } else if name == "surface_create"@ {
        Some(capability_bits::SURFACE_CREATE)
    } else if name == "input_read"@ {
        Some(capability_bits::INPUT_READ)
    } else if name == "exclusive_scanout"@ {
        Some(capability_bits::EXCLUSIVE_SCANOUT)
    } else {
        None
    }
}

/// The right with a given name.
pub fn capability_bit(name: &str) -> (bit: Option<u64>)
    ensures
        bit == right_named(name@),
{
    if text_eq(name, "serial_write") {
        Some(capability_bits::SERIAL_WRITE)
    } else if text_eq(name, "timer_read") {
        Some(capability_bits::TIMER_READ)
    } else if text_eq(name, "file_read") {
        Some(capability_bits::FILE_READ)
    } else if text_eq(name, "file_write") {
        Some(capability_bits::FILE_WRITE)
    } else if text_eq(name, "process_spawn") {
        Some(capability_bits::PROCESS_SPAWN)
    } else if text_eq(name, "ipc_create") {
        Some(capability_bits::IPC_CREATE)
    } else if text_eq(name, "ipc_connect") {
        Some(capability_bits::IPC_CONNECT)
    } else if text_eq(name, "surface_create") {
        Some(capability_bits::SURFACE_CREATE)
    } else if text_eq(name, "input_read") {
        Some(capability_bits::INPUT_READ)
    } else if text_eq(name, "exclusive_scanout") {
        Some(capability_bits::EXCLUSIVE_SCANOUT)
    } else {
        None
    }
}

/// The Realm a manifest asks for by a given name. The system Realm has no
/// name here, since nothing installed can be placed in it.
pub open spec fn realm_named(name: Seq<char>) -> u64 {
    if name == "gaming"@ {
        realm_kind::GAMING
    } else if name == "vault"@ {
        realm_kind::VAULT
    } else {
        realm_kind::HOME
    }
}

/// A manifest before any line is read.
pub open spec fn empty_manifest() -> ManifestView {
    ManifestView {
        id: Seq::empty(),
        name: Seq::empty(),
        version: Seq::empty(),
        publisher: Seq::empty(),
        entry: Seq::empty(),
        requested_realm: realm_kind::HOME,
        requested_capabilities: 0,
    }
}

/// The manifest after one more setting. A later one replaces an earlier
/// one, except that rights add up.
pub open spec fn with_setting(m: ManifestView, key: Seq<char>, value: Seq<char>) -> ManifestView {
    if key == "id"@ {
        ManifestView { id: value, ..m }
    } else if key == "name"@ {
        ManifestView { name: value, ..m }
    } else if key == "version"@ {
        ManifestView { version: value, ..m }
    } else if key == "publisher"@ {
        ManifestView { publisher: value, ..m }
    } else if key == "entry"@ {
        ManifestView { entry: value, ..m }
    } else if key == "realm"@ {
        ManifestView { requested_realm: realm_named(value), ..m }
    } else if key == "capability"@ {
        match right_named(value) {
            Some(bit) => ManifestView {
                requested_capabilities: m.requested_capabilities | bit,
                ..m
            },
            None => m,
        }
    } else {
        m
    }
}

/// The manifest after one more line.
pub open spec fn with_line(m: ManifestView, line: settings::LineView) -> ManifestView {
    match line {
        settings::LineView::Setting { key, value } => with_setting(m, key, value),
        _ => m,
    }
}

/// The manifest after the lines of `s` from `from` on.
pub open spec fn with_lines(m: ManifestView, s: Seq<char>, from: int) -> ManifestView
    decreases s.len() + 1 - from,
{
    if from < 0 || from > s.len() {
        m
    } else {
        let end = settings::next_char(s, '\n', from);
        if from <= end <= s.len() {
            with_lines(with_line(m, settings::line_meaning(s.subrange(from, end))), s, end + 1)
        } else {
            m
        }
    }
}

/// What a manifest's text says. Without an id and an entry point a package
/// means nothing.
pub open spec fn manifest_of(s: Seq<char>) -> Option<ManifestView> {
    let m = with_lines(empty_manifest(), s, 0);
    if m.id.len() == 0 || m.entry.len() == 0 {
        None
    } else {
        Some(m)
    }
}

impl Manifest {
    fn apply(&mut self, key: String, value: String)
        ensures
            final(self)@ == with_setting(old(self)@, key@, value@),
    {
        if text_eq(key.as_str(), "id") {
            self.id = value;
        } else if text_eq(key.as_str(), "name") {
            self.name = value;
        } else if text_eq(key.as_str(), "version") {
            self.version = value;
        } else if text_eq(key.as_str(), "publisher") {
            self.publisher = value;
        } else if text_eq(key.as_str(), "entry") {
            self.entry = value;
        } else if text_eq(key.as_str(), "realm") {
            self.requested_realm = if text_eq(value.as_str(), "gaming") {
                realm_kind::GAMING
            } else if text_eq(value.as_str(), "vault") {
                realm_kind::VAULT
            } else {
                realm_kind::HOME
            };
        } else if text_eq(key.as_str(), "capability") {
            if let Some(bit) = capability_bit(value.as_str()) {
                self.requested_capabilities = self.requested_capabilities | bit;
            }
        }
    }

    /// Reads a manifest. `None` without an id or an entry point.
    pub fn parse(text: &str) -> (r: Option<Manifest>)
        ensures
            match r {
                Some(manifest) => manifest_of(text@) == Some(manifest@),
                None => manifest_of(text@) is None,
            },
    {
        let s: Vec<char> = chars_of(text);
        let mut manifest = Manifest {
            id: String::new(),
            name: String::new(),
            version: String::new(),
            publisher: String::new(),
            entry: String::new(),
            requested_realm: realm_kind::HOME,
            requested_capabilities: 0,
        };
        proof {
            assert(manifest@.id =~= Seq::<char>::empty());
            assert(manifest@ == empty_manifest());
        }
        let mut from: usize = 0;
        let mut more: bool = true;
        while more
            invariant
                s@ == text@,
                more ==> from <= s@.len() && with_lines(empty_manifest(), s@, 0) == with_lines(
                    manifest@,
                    s@,
                    from as int,
                ),
                !more ==> manifest@ == with_lines(empty_manifest(), s@, 0),
            decreases (if more { s@.len() + 1 - from } else { 0 }),
        {
            let end: usize = line_end(&s, from);
            let ghost before = manifest@;
            match read_line(&s, from, end) {
                Line::Setting { key, value } => {
                    manifest.apply(key, value);
                },
                _ => {},
            }
            assert(manifest@ == with_line(
                before,
                settings::line_meaning(s@.subrange(from as int, end as int)),
            ));
            if end < s.len() {
                from = end + 1;
            } else {
                assert(with_lines(manifest@, s@, end + 1) == manifest@);
                more = false;
            }
        }
        if manifest.id.as_str().is_empty() || manifest.entry.as_str().is_empty() {
            return None;
        }
        Some(manifest)
    }
}

// ---------------------------------------------------------------------
// Verdicts
// ---------------------------------------------------------------------

/// What is known about a package's signature.
#[derive(Debug, Clone, Copy, PartialEq, Eq, Structural)]
pub enum SignatureStatus {
    /// There is none. The package can be installed, but not elevated.
    Absent,
    /// There is one that could not be verified.
    Unverified,
    /// It verified against a known publisher's key.
    Verified,
}

/// The result of examining a package.
#[derive(Debug)]
pub struct Verdict {
    pub manifest: Manifest,
    /// Whether the contents match the digest in the header.
    pub integrity_ok: bool,
    pub signature: SignatureStatus,
    /// The Realm the package will run in.
    pub granted_realm: RealmProfile,
    /// Whether that is another Realm than the package asked for.
    pub request_denied: bool,
}

/// The result of examining a package.
pub struct VerdictView {
    pub manifest: ManifestView,
    pub integrity_ok: bool,
    pub signature: SignatureStatus,
    pub granted_realm: RealmProfile,
    pub request_denied: bool,
}

impl View for Verdict {
    type V = VerdictView;

    open spec fn view(&self) -> VerdictView {
        VerdictView {
            manifest: self.manifest@,
            integrity_ok: self.integrity_ok,
            signature: self.signature,
            granted_realm: self.granted_realm,
            request_denied: self.request_denied,
        }
    }
}

/// Why a package could not be examined at all.
#[derive(Debug)]
pub enum StoreError {
    TooSmall,
    BadMagic,
    UnsupportedVersion(u32),
    Malformed(&'static str),
    BadManifest,
}

impl StoreError {
    /// What `message` says.
    pub open spec fn text(&self) -> Seq<char> {
        match self {
            StoreError::TooSmall => "package is smaller than its own header"@,
            StoreError::BadMagic => "not a Najm package"@,
            StoreError::UnsupportedVersion(v) => "package format version "@ + text::decimal(
                *v as nat,
            ) + " is not supported"@,
            StoreError::Malformed(why) => "malformed package: "@ + why@,
            StoreError::BadManifest => "the manifest is missing an id or an entry point, without which the package \
                 names nothing to run"@,
        }
    }

    /// A sentence for the log.
    pub fn message(&self) -> (out: String)
        ensures
            out@ == self.text(),
    {
        match self {
            StoreError::TooSmall => String::from_str("package is smaller than its own header"),
            StoreError::BadMagic => String::from_str("not a Najm package"),
            StoreError::UnsupportedVersion(v) => {
                let mut out = String::from_str("package format version ");
                push_decimal(&mut out, *v as u64);
                out.append(" is not supported");
                out
            },
            StoreError::Malformed(why) => {
                let mut out = String::from_str("malformed package: ");
                out.append(why);
                out
            },
            StoreError::BadManifest => String::from_str(
                "the manifest is missing an id or an entry point, without which the package \
                 names nothing to run",
            ),
        }
    }
}

/// The Realm a package is given. The signature decides; the request only
/// chooses among what a verified signature opens up.
pub open spec fn granted(signature: SignatureStatus, requested: u64, intact: bool) -> RealmProfile {
    if signature == SignatureStatus::Verified && intact {
        if requested == realm_kind::VAULT {
            realm::vault_profile()
        } else if requested == realm_kind::GAMING {
            realm::gaming_profile()
        } else {
            realm::home_profile()
        }
    } else {
        realm::home_profile()
    }
}

/// The Realm a package is given.
pub fn grant(signature: SignatureStatus, requested: u64, intact: bool) -> (profile: RealmProfile)
    ensures
        profile == granted(signature, requested, intact),
{
    if signature == SignatureStatus::Verified && intact {
        if requested == realm_kind::VAULT {
            realm::vault()
        } else if requested == realm_kind::GAMING {
            realm::gaming()
        } else {
            realm::home()
        }
    } else {
        realm::home()
    }
}

/// A package's header and its bounds, before the contents are looked at.
pub open spec fn header_problem(s: Seq<u8>) -> Option<StoreError> {
    if s.len() < HEADER_SIZE {
        Some(StoreError::TooSmall)
    } else if s.subrange(0, 8) != MAGIC@ {
        Some(StoreError::BadMagic)
    } else if bytes::le32(s, 8) != VERSION {
        Some(StoreError::UnsupportedVersion(bytes::le32(s, 8) as u32))
    } else if bytes::le32(s, 12) > s.len() - HEADER_SIZE {
        Some(
            StoreError::Malformed("the manifest length extends past the end of the package"),
        )
    } else {
        None
    }
}

/// Everything after the header.
pub open spec fn body(s: Seq<u8>) -> Seq<u8> {
    s.subrange(HEADER_SIZE as int, s.len() as int)
}

/// The digest a package records.
pub open spec fn recorded_digest(s: Seq<u8>) -> Seq<u8> {
    s.subrange(16, 48)
}

/// Whether a package's contents match its digest.
pub open spec fn intact(s: Seq<u8>) -> bool {
    sha256::sha256(body(s)) == recorded_digest(s)
}

/// The bytes of a package's manifest.
pub open spec fn manifest_bytes(s: Seq<u8>) -> Seq<u8> {
    body(s).subrange(0, bytes::le32(s, 12))
}

/// What examining a package comes to.
pub open spec fn verdict_of(s: Seq<u8>) -> Result<VerdictView, StoreError> {
    match header_problem(s) {
        Some(e) => Err(e),
        None => if !vstd::utf8::valid_utf8(manifest_bytes(s)) {
            Err(StoreError::Malformed("the manifest is not valid UTF-8"))
        } else {
            match manifest_of(vstd::utf8::decode_utf8(manifest_bytes(s))) {
                None => Err(StoreError::BadManifest),
                Some(manifest) => {
                    let granted_realm = granted(
                        SignatureStatus::Absent,
                        manifest.requested_realm,
                        intact(s),
                    );
                    Ok(
                        VerdictView {
                            manifest,
                            integrity_ok: intact(s),
                            signature: SignatureStatus::Absent,
                            granted_realm,
                            request_denied: manifest.requested_realm != granted_realm.kind,
                        },
                    )
                },
            }
        },
    }
}

/// What examining a package showed.
#[derive(Debug)]
pub struct Examination {
    /// What to report of a package whose contents do not match its digest.
    pub rejection: Option<&'static str>,
    pub result: Result<Verdict, StoreError>,
}

/// Whether examining gave what it should.
pub open spec fn result_is(r: Result<Verdict, StoreError>, s: Seq<u8>) -> bool {
    match r {
        Ok(verdict) => verdict_of(s) == Ok::<VerdictView, StoreError>(verdict@),
        Err(e) => verdict_of(s) == Err::<VerdictView, StoreError>(e),
    }
}

/// Examines a package and decides what it is allowed to be. The digest is
/// checked before anything is parsed; the manifest of a package that fails
/// it is parsed all the same, to say what was rejected.
pub fn examine(package: &[u8]) -> (r: Examination)
    ensures
        result_is(r.result, package@),
        match r.rejection {
            Some(text) => header_problem(package@) is None && !intact(package@) && text
                == "Najm Store: REJECTED - the package's contents do not match its recorded digest. It \
             has been modified, truncated, or corrupted in transit.",
            None => header_problem(package@) is Some || intact(package@),
        },
{
    if package.len() < HEADER_SIZE {
        return Examination { rejection: None, result: Err(StoreError::TooSmall) };
    }
    let magic = vstd::slice::slice_subrange(package, 0, 8);
    let expected: [u8; 8] = MAGIC;
    if !bytes_eq(magic, expected.as_slice()) {
        return Examination { rejection: None, result: Err(StoreError::BadMagic) };
    }
    let version: u32 = read_u32(package, 8);
    if version != VERSION {
        return Examination {
            rejection: None,
            result: Err(StoreError::UnsupportedVersion(version)),
        };
    }
    let manifest_len: u32 = read_u32(package, 12);
    if manifest_len as u64 > (package.len() - HEADER_SIZE) as u64 {
        return Examination {
            rejection: None,
            result: Err(
                StoreError::Malformed("the manifest length extends past the end of the package"),
            ),
        };
    }
    let contents = vstd::slice::slice_subrange(package, HEADER_SIZE, package.len());
    let mut recorded: [u8; 32] = [0;32];
    let mut i: usize = 0;
    while i < 32
        invariant
            i <= 32,
            package@.len() >= HEADER_SIZE,
            forall|k: int| 0 <= k < i ==> recorded@[k] == package@[16 + k],
        decreases 32 - i,
    {
        recorded[i] = package[16 + i];
        i += 1;
    }
    assert(recorded@ =~= recorded_digest(package@));
    let actual: [u8; 32] = sha256::digest(contents);
    let integrity_ok: bool = digests_equal(&actual, &recorded);
    let rejection: Option<&'static str> = if integrity_ok {
        None
    } else {
        Some(
            "Najm Store: REJECTED - the package's contents do not match its recorded digest. It \
             has been modified, truncated, or corrupted in transit.",
        )
    };
    let head = vstd::slice::slice_subrange(contents, 0, manifest_len as usize);
    assert(head@ =~= manifest_bytes(package@));
    let text: &str = match from_utf8(head) {
        Some(text) => text,
        None => {
            return Examination {
                rejection,
                result: Err(StoreError::Malformed("the manifest is not valid UTF-8")),
            };
        },
    };
    proof {
        vstd::utf8::encode_utf8_decode_utf8(text@);
    }
    let manifest: Manifest = match Manifest::parse(text) {
        Some(manifest) => manifest,
        None => {
            return Examination { rejection, result: Err(StoreError::BadManifest) };
        },
    };
    let signature: SignatureStatus = verify_signature(package, &manifest);
    let granted_realm: RealmProfile = grant(signature, manifest.requested_realm, integrity_ok);
    let request_denied: bool = manifest.requested_realm != granted_realm.kind;
    Examination {
        rejection,
        result: Ok(Verdict { manifest, integrity_ok, signature, granted_realm, request_denied }),
    }
}

/// Examines a package and decides what it is allowed to be.
pub fn verify(bytes: &[u8]) -> (r: Result<Verdict, StoreError>)
    ensures
        result_is(r, bytes@),
{
    examine(bytes).result
}

/// Looks for a publisher's signature. The format has no place for one yet,
/// so there is never one to verify and nothing can be elevated.
fn verify_signature(bytes: &[u8], manifest: &Manifest) -> (status: SignatureStatus)
    ensures
        status == SignatureStatus::Absent,
{
    SignatureStatus::Absent
}

/// The rights a package runs with: what its Realm provides, narrowed to
/// what it asked for. One that asks for nothing gets all of it.
pub open spec fn effective(realm: RealmProfile, requested: u64) -> RealmProfile {
    if requested == 0 {
        realm
    } else {
        RealmProfile { capabilities: realm.capabilities & requested, ..realm }
    }
}

/// The rights a package runs with.
pub fn effective_profile(verdict: &Verdict) -> (profile: RealmProfile)
    ensures
        profile == effective(verdict.granted_realm, verdict.manifest.requested_capabilities),
{
    let mut profile: RealmProfile = verdict.granted_realm;
    if verdict.manifest.requested_capabilities != 0 {
        profile.capabilities = profile.capabilities & verdict.manifest.requested_capabilities;
    }
    profile
}

impl SignatureStatus {
    /// The status's name.
    pub open spec fn spec_name(self) -> &'static str {
        match self {
            SignatureStatus::Absent => "Absent",
            SignatureStatus::Unverified => "Unverified",
            SignatureStatus::Verified => "Verified",
        }
    }

    /// The status's name.
    pub fn name(self) -> (name: &'static str)
        ensures
            name == self.spec_name(),
    {
        match self {
            SignatureStatus::Absent => "Absent",
            SignatureStatus::Unverified => "Unverified",
            SignatureStatus::Verified => "Verified",
        }
    }
}

/// What `report` says about what a package is.
pub open spec fn package_line(m: ManifestView) -> Seq<char> {
    "Najm Store: package '"@ + m.name + "' v"@ + m.version + " by '"@ + m.publisher
        + "' - entry '"@ + m.entry + "'"@
}

/// What `report` says about what it was allowed to be.
pub open spec fn decision_line(v: VerdictView) -> Seq<char> {
    "Najm Store:   integrity "@ + (if v.integrity_ok {
        "OK"@
    } else {
        "FAILED"@
    }) + ", signature "@ + v.signature.spec_name()@ + ", granted "@ + v.granted_realm.name@ + " ("@
        + (if v.request_denied {
        "the package requested a different Realm and was refused"@
    } else {
        "as requested"@
    }) + ")"@
}

/// What a package is and what it was allowed to be, for the log. A refused
/// request has a line of its own.
pub fn report(verdict: &Verdict) -> (lines: Vec<String>)
    ensures
        lines@.len() == (if verdict.request_denied {
            3int
        } else {
            2
        }),
        lines@[0]@ == package_line(verdict.manifest@),
        lines@[1]@ == decision_line(verdict@),
        verdict.request_denied ==> lines@[2]@
            == "Najm Store:   the request was denied because elevation requires a signature from a \
             publisher verified in advance - see ARCHITECTURE.md section 2e. Signature \
             verification is not implemented, so it fails closed and nothing is elevated."@,
{
    let mut lines: Vec<String> = Vec::new();
    let mut line = String::from_str("Najm Store: package '");
    line.append(verdict.manifest.name.as_str());
    line.append("' v");
    line.append(verdict.manifest.version.as_str());
    line.append(" by '");
    line.append(verdict.manifest.publisher.as_str());
    line.append("' - entry '");
    line.append(verdict.manifest.entry.as_str());
    line.append("'");
    lines.push(line);
    let mut line = String::from_str("Najm Store:   integrity ");
    if verdict.integrity_ok {
        line.append("OK");
    } else {
        line.append("FAILED");
    }
    line.append(", signature ");
    line.append(verdict.signature.name());
    line.append(", granted ");
    line.append(verdict.granted_realm.name);
    line.append(" (");
    if verdict.request_denied {
        line.append("the package requested a different Realm and was refused");
    } else {
        line.append("as requested");
    }
    line.append(")");
    lines.push(line);
    if verdict.request_denied {
        lines.push(
            String::from_str(
                "Najm Store:   the request was denied because elevation requires a signature from a \
             publisher verified in advance - see ARCHITECTURE.md section 2e. Signature \
             verification is not implemented, so it fails closed and nothing is elevated.",
            ),
        );
    }
    lines
}

/// The files inside a package, as an archive.
pub fn payload(bytes: &[u8]) -> (r: Result<&[u8], StoreError>)
    ensures
        match r {
            Ok(files) => {
                &&& bytes@.len() >= HEADER_SIZE
                &&& HEADER_SIZE + bytes::le32(bytes@, 12) <= bytes@.len()
                &&& files@ == bytes@.subrange(
                    HEADER_SIZE + bytes::le32(bytes@, 12),
                    bytes@.len() as int,
                )
            },
            Err(e) => if bytes@.len() < HEADER_SIZE {
                e == StoreError::TooSmall
            } else {
                &&& HEADER_SIZE + bytes::le32(bytes@, 12) > bytes@.len()
                &&& e == StoreError::Malformed("the payload starts past the end")
            },
        },
{
    if bytes.len() < HEADER_SIZE {
        return Err(StoreError::TooSmall);
    }
    let start: u64 = HEADER_SIZE as u64 + read_u32(bytes, 12) as u64;
    if start > bytes.len() as u64 {
        return Err(StoreError::Malformed("the payload starts past the end"));
    }
    Ok(vstd::slice::slice_subrange(bytes, start as usize, bytes.len()))
}

/// A package's digest, as `verify` checks it.
pub fn compute_digest(manifest: &[u8], payload: &[u8]) -> (digest: [u8; 32])
    ensures
        digest@ == sha256::sha256(manifest@ + payload@),
{
    let mut hasher = Sha256::new();
    hasher.update(manifest);
    hasher.update(payload);
    assert(hasher@ =~= manifest@ + payload@);
    hasher.finish()
}

// ---------------------------------------------------------------------
// Scanning a directory
// ---------------------------------------------------------------------

/// Whether a path names a package.
pub open spec fn names_package(path: Seq<char>) -> bool {
    path.len() >= 5 && path.subrange(path.len() - 5, path.len() as int) == ".najm"@
}

fn is_package_name(path: &str) -> (r: bool)
    ensures
        r == names_package(path@),
{
    let s: Vec<char> = chars_of(path);
    let n: usize = s.len();
    proof {
        reveal_strlit(".najm");
        if n >= 5 {
            let tail = path@.subrange(n - 5, n as int);
            assert(tail =~= ".najm"@ <==> tail[0] == '.' && tail[1] == 'n' && tail[2] == 'a' && tail[3]
                == 'j' && tail[4] == 'm');
        }
    }
    n >= 5 && s[n - 5] == '.' && s[n - 4] == 'n' && s[n - 3] == 'a' && s[n - 2] == 'j' && s[n - 1]
        == 'm'
}

/// What a scan found.
#[derive(Debug)]
pub struct Scan {
    pub verdicts: Vec<Verdict>,
    /// For the log.
    pub lines: Vec<String>,
}

/// The verdicts on the packages among `paths` that could be examined.
pub open spec fn verdicts_on(
    nodes: Map<Seq<char>, fs::Node>,
    archive: Seq<u8>,
    paths: Seq<Seq<char>>,
) -> Seq<VerdictView>
    decreases paths.len(),
{
    if paths.len() == 0 {
        Seq::empty()
    } else {
        let rest = verdicts_on(nodes, archive, paths.drop_last());
        let path = paths.last();
        if names_package(path) && nodes.dom().contains(path) && !nodes[path].is_directory {
            match verdict_of(fs::contents(archive, nodes[path])) {
                Ok(verdict) => rest.push(verdict),
                Err(_) => rest,
            }
        } else {
            rest
        }
    }
}

/// The lines that a scan of `paths` logs: the rejections, and the packages
/// that could not be examined.
pub open spec fn lines_on(
    nodes: Map<Seq<char>, fs::Node>,
    archive: Seq<u8>,
    paths: Seq<Seq<char>>,
) -> Seq<Seq<char>>
    decreases paths.len(),
{
    if paths.len() == 0 {
        Seq::empty()
    } else {
        let rest = lines_on(nodes, archive, paths.drop_last());
        let path = paths.last();
        if names_package(path) && nodes.dom().contains(path) && !nodes[path].is_directory {
            let package = fs::contents(archive, nodes[path]);
            let noticed = if header_problem(package) is None && !intact(package) {
                rest.push(
                    "Najm Store: REJECTED - the package's contents do not match its recorded digest. It \
             has been modified, truncated, or corrupted in transit."@,
                )
            } else {
                rest
            };
            match verdict_of(package) {
                Ok(_) => noticed,
                Err(e) => noticed.push("Najm Store: could not read '"@ + path + "' - "@ + e.text()),
            }
        } else {
            rest
        }
    }
}

/// The views of verdicts.
pub open spec fn verdict_views(verdicts: Seq<Verdict>) -> Seq<VerdictView> {
    Seq::new(verdicts.len(), |i: int| verdicts[i]@)
}

/// Every package in a directory, examined. There are none in what is not a
/// directory.
pub fn scan(fs: &FileSystem, directory: &str) -> (r: Scan)
    requires
        fs.wf(),
    ensures
        if fs.nodes().dom().contains(directory@) && fs.nodes()[directory@].is_directory {
            let paths = fs::children_of(fs.entries(), directory@);
            &&& verdict_views(r.verdicts@) == verdicts_on(fs.nodes(), fs.archive(), paths)
            &&& text::texts(r.lines@) == lines_on(fs.nodes(), fs.archive(), paths)
        } else {
            r.verdicts@.len() == 0 && r.lines@.len() == 0
        },
{
    let mut verdicts: Vec<Verdict> = Vec::new();
    let mut lines: Vec<String> = Vec::new();
    let paths: Vec<String> = match fs::read_dir(fs, directory) {
        Some(paths) => paths,
        None => {
            return Scan { verdicts, lines };
        },
    };
    let ghost all = text::texts(paths@);
    let mut i: usize = 0;
    assert(verdict_views(verdicts@) =~= Seq::<VerdictView>::empty());
    assert(text::texts(lines@) =~= Seq::<Seq<char>>::empty());
    while i < paths.len()
        invariant
            fs.wf(),
            i <= paths.len(),
            all == text::texts(paths@),
            verdict_views(verdicts@) == verdicts_on(
                fs.nodes(),
                fs.archive(),
                all.subrange(0, i as int),
            ),
            text::texts(lines@) == lines_on(fs.nodes(), fs.archive(), all.subrange(0, i as int)),
        decreases paths.len() - i,
    {
        let ghost upto = all.subrange(0, i + 1);
        assert(upto.drop_last() =~= all.subrange(0, i as int));
        assert(upto.last() == paths@[i as int]@);
        let path: &str = paths[i].as_str();
        i += 1;
        if !is_package_name(path) {
            continue;
        }
        let package: Vec<u8> = match fs::read_all(fs, path) {
            Some(package) => package,
            None => {
                continue;
            },
        };
        let ghost views = verdict_views(verdicts@);
        let ghost said = text::texts(lines@);
        let examination = examine(package.as_slice());
        let ghost mut noticed = said;
        if let Some(text) = examination.rejection {
            lines.push(String::from_str(text));
            proof {
                noticed = said.push(text@);
            }
        }
        assert(text::texts(lines@) =~= noticed);
        match examination.result {
            Ok(verdict) => {
                let ghost view = verdict@;
                verdicts.push(verdict);
                assert(verdict_views(verdicts@) =~= views.push(view));
            },
            Err(err) => {
                let mut line = String::from_str("Najm Store: could not read '");
                line.append(path);
                line.append("' - ");
                line.append(err.message().as_str());
                let ghost text = line@;
                lines.push(line);
                assert(text::texts(lines@) =~= noticed.push(text));
            },
        }
    }
    assert(all.subrange(0, i as int) =~= all);
    Scan { verdicts, lines }
}

// ---------------------------------------------------------------------
// Laws
// ---------------------------------------------------------------------

/// Elevation needs a verified signature and intact contents, whatever the
/// package asked for.
pub proof fn law_elevation_needs_a_credential(
    signature: SignatureStatus,
    requested: u64,
    intact: bool,
)
    ensures
        granted(signature, requested, intact).kind != realm_kind::HOME ==> signature
            == SignatureStatus::Verified && intact,
        granted(signature, requested, intact).kind != realm_kind::SYSTEM,
{
}

/// While signatures cannot be verified, no package gets anything but the
/// Home Realm, and one that asked for another is told so.
pub proof fn law_nothing_is_elevated(package: Seq<u8>)
    ensures
        verdict_of(package) matches Ok(verdict) ==> {
            &&& verdict.granted_realm == realm::home_profile()
            &&& verdict.request_denied == (verdict.manifest.requested_realm != realm_kind::HOME)
        },
{
}

/// Asking for a right never grants it: what a package runs with is within
/// what its Realm provides.
pub proof fn law_requests_only_narrow(realm: RealmProfile, requested: u64, right: u64)
    ensures
        effective(realm, requested).grants(right) ==> realm.grants(right),
        effective(realm, requested).kind == realm.kind,
{
    let c = realm.capabilities;
    assert((c & requested) & right == right ==> c & right == right) by (bit_vector);
}

/// A package as its parts: the four bytes after the magic are the version,
/// the next four the manifest's length.
pub open spec fn assembled(manifest: Seq<u8>, payload: Seq<u8>) -> Seq<u8> {
    MAGIC@ + Seq::new(4, |i: int| bytes::le_byte(VERSION as int, i)) + Seq::new(
        4,
        |i: int| bytes::le_byte(manifest.len() as int, i),
    ) + sha256::sha256(manifest + payload) + manifest + payload
}

/// A package that was put together with `compute_digest` is intact, and
/// its manifest and files are the ones that went into it.
pub proof fn law_assembled_package_is_intact(manifest: Seq<u8>, payload: Seq<u8>)
    requires
        manifest.len() < 0x1_0000_0000,
    ensures
        header_problem(assembled(manifest, payload)) is None,
        intact(assembled(manifest, payload)),
        manifest_bytes(assembled(manifest, payload)) == manifest,
        body(assembled(manifest, payload)) == manifest + payload,
{
    let s = assembled(manifest, payload);
    assert(s.subrange(0, 8) =~= MAGIC@);
    assert(body(s) =~= manifest + payload);
    assert(recorded_digest(s) =~= sha256::sha256(manifest + payload));
    bytes::lemma_le32_bytes(s, 8, VERSION as int);
    bytes::lemma_le32_bytes(s, 12, manifest.len() as int);
    assert(manifest_bytes(s) =~= manifest);
}

/// Each right has one name, and its own bit.
pub proof fn law_rights_have_names(name: Seq<char>)
    ensures
        ({
            let bit = right_named(name);
            &&& name == "serial_write"@ ==> bit == Some(1u64)
            &&& name == "timer_read"@ ==> bit == Some(2u64)
            &&& name == "file_read"@ ==> bit == Some(4u64)
            &&& name == "file_write"@ ==> bit == Some(8u64)
            &&& name == "process_spawn"@ ==> bit == Some(16u64)
            &&& name == "ipc_create"@ ==> bit == Some(32u64)
            &&& name == "ipc_connect"@ ==> bit == Some(64u64)
            &&& name == "surface_create"@ ==> bit == Some(128u64)
            &&& name == "input_read"@ ==> bit == Some(256u64)
            &&& name == "exclusive_scanout"@ ==> bit == Some(512u64)
            &&& bit is Some ==> name == "serial_write"@ || name == "timer_read"@ || name
                == "file_read"@ || name == "file_write"@ || name == "process_spawn"@ || name
                == "ipc_create"@ || name == "ipc_connect"@ || name == "surface_create"@ || name
                == "input_read"@ || name == "exclusive_scanout"@
        }),
{
    reveal_strlit("serial_write");
    reveal_strlit("timer_read");
    reveal_strlit("file_read");
    reveal_strlit("file_write");
    reveal_strlit("process_spawn");
    reveal_strlit("ipc_create");
    reveal_strlit("ipc_connect");
    reveal_strlit("surface_create");
    reveal_strlit("input_read");
    reveal_strlit("exclusive_scanout");
    assert("serial_write"@.len() == 12);
    assert("timer_read"@.len() == 10);
    assert("file_read"@.len() == 9);
    assert("file_write"@.len() == 10);
    assert("process_spawn"@.len() == 13);
    assert("ipc_create"@.len() == 10);
    assert("ipc_connect"@.len() == 11);
    assert("surface_create"@.len() == 14);
    assert("input_read"@.len() == 10);
    assert("exclusive_scanout"@.len() == 17);
    assert("timer_read"@[0] == 't' && "file_write"@[0] == 'f' && "ipc_create"@[0] == 'i'
        && "input_read"@[0] == 'i' && "ipc_create"@[1] == 'p' && "input_read"@[1] == 'n');
}

/// A manifest is read line by line, as far as it goes.
pub proof fn law_manifests_are_read_line_by_line(
    m: ManifestView,
    s: Seq<char>,
    from: int,
    end: int,
)
    requires
        0 <= from <= end <= s.len(),
        forall|i: int| from <= i < end ==> #[trigger] s[i] != '\n',
        end < s.len() ==> s[end] == '\n',
    ensures
        with_lines(m, s, from) == with_lines(
            with_line(m, settings::line_meaning(s.subrange(from, end))),
            s,
            end + 1,
        ),
        with_lines(m, s, s.len() as int + 1) == m,
        manifest_of(s) == (if with_lines(empty_manifest(), s, 0).id.len() > 0 && with_lines(
            empty_manifest(),
            s,
            0,
        ).entry.len() > 0 {
            Some(with_lines(empty_manifest(), s, 0))
        } else {
            None
        }),
        empty_manifest().id.len() == 0,
        empty_manifest().entry.len() == 0,
        empty_manifest().name.len() == 0,
        empty_manifest().version.len() == 0,
        empty_manifest().publisher.len() == 0,
        empty_manifest().requested_realm == 0,
        empty_manifest().requested_capabilities == 0,
{
    settings::law_search_finds_the_first(s, '\n', from, end);
}

/// A line of a manifest sets what its key names and nothing else. A right
/// that is asked for is added to those asked for before, and what is no key,
/// no right or no setting is passed over. A Realm that is neither Gaming nor
/// Vault is Home.
pub proof fn law_manifest_keys(m: ManifestView, key: Seq<char>, value: Seq<char>)
    ensures
        ({
            let after = with_line(m, settings::LineView::Setting { key, value });
            &&& after.id == (if key == "id"@ {
                value
            } else {
                m.id
            })
            &&& after.name == (if key == "name"@ {
                value
            } else {
                m.name
            })
            &&& after.version == (if key == "version"@ {
                value
            } else {
                m.version
            })
            &&& after.publisher == (if key == "publisher"@ {
                value
            } else {
                m.publisher
            })
            &&& after.entry == (if key == "entry"@ {
                value
            } else {
                m.entry
            })
            &&& key != "realm"@ ==> after.requested_realm == m.requested_realm
            &&& key == "realm"@ && value == "gaming"@ ==> after.requested_realm == 1
            &&& key == "realm"@ && value == "vault"@ ==> after.requested_realm == 2
            &&& key == "realm"@ && value != "gaming"@ && value != "vault"@
                ==> after.requested_realm == 0
            &&& key != "capability"@ || right_named(value) is None ==> after.requested_capabilities
                == m.requested_capabilities
            &&& key == "capability"@ ==> (right_named(value) matches Some(bit)
                ==> after.requested_capabilities == m.requested_capabilities | bit)
        }),
        with_line(m, settings::LineView::Blank) == m,
        with_line(m, settings::LineView::NotASetting) == m,
{
    reveal_strlit("id");
    reveal_strlit("name");
    reveal_strlit("version");
    reveal_strlit("publisher");
    reveal_strlit("entry");
    reveal_strlit("realm");
    reveal_strlit("capability");
    reveal_strlit("gaming");
    reveal_strlit("vault");
    assert("id"@.len() == 2);
    assert("name"@.len() == 4);
    assert("version"@.len() == 7);
    assert("publisher"@.len() == 9);
    assert("entry"@.len() == 5);
    assert("realm"@.len() == 5);
    assert("capability"@.len() == 10);
    assert("gaming"@.len() == 6);
    assert("vault"@.len() == 5);
    assert("entry"@[0] == 'e' && "realm"@[0] == 'r');
}

/// How a package is judged. It starts with eight bytes that say what it is
/// and the version of its format, which is 1. Then come the length of the
/// manifest and the digest of all that follows it, 32 bytes from the
/// sixteenth on. The contents start at byte 48, with the manifest. A package
/// that is not this is refused, for the first thing that is wrong with it.
pub proof fn law_packages_are_judged(s: Seq<u8>, length: int)
    requires
        length == bytes::le32(s, 12),
    ensures
        s.len() < 48 ==> verdict_of(s) == Err::<VerdictView, StoreError>(StoreError::TooSmall),
        s.len() >= 48 && s.subrange(0, 8) != seq![0x4Eu8, 0x41, 0x4A, 0x4D, 0x50, 0x4B, 0x47, 0]
            ==> verdict_of(s) == Err::<VerdictView, StoreError>(StoreError::BadMagic),
        s.len() >= 48 && s.subrange(0, 8) == seq![0x4Eu8, 0x41, 0x4A, 0x4D, 0x50, 0x4B, 0x47, 0]
            ==> {
            let manifest = s.subrange(48, 48 + length);
            let text = vstd::utf8::decode_utf8(manifest);
            &&& bytes::le32(s, 8) != 1 ==> verdict_of(s) is Err
            &&& bytes::le32(s, 8) == 1 && 48 + length > s.len() ==> verdict_of(s) is Err
            &&& bytes::le32(s, 8) == 1 && 48 + length <= s.len() ==> {
                &&& !vstd::utf8::valid_utf8(manifest) ==> verdict_of(s) is Err
                &&& vstd::utf8::valid_utf8(manifest) && manifest_of(text) is None ==> verdict_of(s)
                    == Err::<VerdictView, StoreError>(StoreError::BadManifest)
                &&& vstd::utf8::valid_utf8(manifest) ==> (manifest_of(text) matches Some(m) ==> {
                    &&& verdict_of(s) matches Ok(verdict)
                    &&& verdict.manifest == m
                    &&& verdict.signature == SignatureStatus::Absent
                    &&& verdict.integrity_ok <==> sha256::sha256(
                        s.subrange(48, s.len() as int),
                    ) == s.subrange(16, 48)
                    &&& verdict.granted_realm.kind == 0
                    &&& verdict.request_denied <==> m.requested_realm != 0
                })
            }
        },
{
    assert(MAGIC@ =~= seq![0x4Eu8, 0x41, 0x4A, 0x4D, 0x50, 0x4B, 0x47, 0]);
    if s.len() >= 48 && 48 + length <= s.len() {
        assert(manifest_bytes(s) =~= s.subrange(48, 48 + length));
    }
}

/// What a package is granted: the Realm that it asks for where its signature
/// was verified and its contents are intact, as long as that is Gaming or
/// Vault, and Home otherwise.
pub proof fn law_verified_packages_get_their_realm(
    signature: SignatureStatus,
    requested: u64,
    intact: bool,
)
    ensures
        signature == SignatureStatus::Verified && intact && requested == 1 ==> granted(
            signature,
            requested,
            intact,
        ) == realm::gaming_profile(),
        signature == SignatureStatus::Verified && intact && requested == 2 ==> granted(
            signature,
            requested,
            intact,
        ) == realm::vault_profile(),
        signature != SignatureStatus::Verified || !intact || requested == 0 || requested > 2
            ==> granted(signature, requested, intact) == realm::home_profile(),
{
}

/// A package has the rights that its Realm has and that it asked for, or all
/// of its Realm's where it asked for none.
pub proof fn law_rights_are_those_asked_for(realm: RealmProfile, requested: u64, right: u64)
    ensures
        requested == 0 ==> effective(realm, requested) == realm,
        requested != 0 ==> {
            let profile = effective(realm, requested);
            &&& profile.grants(right) <==> realm.grants(right) && requested & right == right
            &&& profile.name == realm.name
            &&& profile.kind == realm.kind
        },
{
    let held = realm.capabilities;
    assert(((held & requested) & right == right) <==> (held & right == right && requested & right
        == right)) by (bit_vector);
}

/// A package is what has a name that ends in `.najm`.
pub proof fn law_packages_have_an_ending(stem: Seq<char>, path: Seq<char>)
    ensures
        names_package(stem + seq!['.', 'n', 'a', 'j', 'm']),
        names_package(path) ==> path.len() >= 5 && path == path.subrange(0, path.len() - 5) + seq![
            '.',
            'n',
            'a',
            'j',
            'm',
        ],
{
    reveal_strlit(".najm");
    let end = seq!['.', 'n', 'a', 'j', 'm'];
    let whole = stem + end;
    assert(".najm"@ =~= end);
    assert(whole.subrange(whole.len() - 5, whole.len() as int) =~= end);
    if names_package(path) {
        let tail = path.subrange(path.len() - 5, path.len() as int);
        assert(path =~= path.subrange(0, path.len() - 5) + tail);
    }
}

/// Packages are looked at one by one: the verdicts on two rows of paths are
/// those on each, in order. A path gives the verdict on its file, where it
/// names a package that can be read, and none otherwise.
pub proof fn law_packages_are_scanned_one_by_one(
    nodes: Map<Seq<char>, fs::Node>,
    archive: Seq<u8>,
    a: Seq<Seq<char>>,
    b: Seq<Seq<char>>,
    path: Seq<char>,
)
    ensures
        verdicts_on(nodes, archive, a + b) == verdicts_on(nodes, archive, a) + verdicts_on(
            nodes,
            archive,
            b,
        ),
        ({
            let alone = verdicts_on(nodes, archive, seq![path]);
            let node = nodes[path];
            let package = archive.subrange(node.offset as int, node.offset + node.len);
            let looked_at = names_package(path) && nodes.dom().contains(path)
                && !node.is_directory;
            &&& !looked_at || verdict_of(package) is Err ==> alone.len() == 0
            &&& looked_at ==> (verdict_of(package) matches Ok(verdict) ==> alone == seq![verdict])
        }),
    decreases b.len(),
{
    reveal_with_fuel(verdicts_on, 2);
    let single = seq![path];
    assert(single.drop_last() =~= Seq::<Seq<char>>::empty());
    assert(Seq::<VerdictView>::empty().len() == 0);
    if b.len() == 0 {
        assert(a + b =~= a);
        assert(verdicts_on(nodes, archive, a) + verdicts_on(nodes, archive, b) =~= verdicts_on(
            nodes,
            archive,
            a,
        ));
    } else {
        law_packages_are_scanned_one_by_one(nodes, archive, a, b.drop_last(), path);
        assert((a + b).drop_last() =~= a + b.drop_last());
        assert((a + b).last() == b.last());
        assert(verdicts_on(nodes, archive, a + b) =~= verdicts_on(nodes, archive, a) + verdicts_on(
            nodes,
            archive,
            b,
        ));
    }
}

/// The report says of a package its name, its version, its publisher and its
/// entry point.
pub proof fn law_packages_are_reported(m: ManifestView)
    ensures
        text::says(
            package_line(m),
            seq![
                m.name,
                m.version,
                m.publisher,
                m.entry,
            ],
        ),
{
    let none = Seq::<Seq<char>>::empty();
    let start = "Najm Store: package '"@;
    text::lemma_says(start, none, m.name, "' v"@);
    let line1 = start + m.name + "' v"@;
    let parts1 = none.push(m.name);
    text::lemma_says(line1, parts1, m.version, " by '"@);
    let line2 = line1 + m.version + " by '"@;
    let parts2 = parts1.push(m.version);
    text::lemma_says(line2, parts2, m.publisher, "' - entry '"@);
    let line3 = line2 + m.publisher + "' - entry '"@;
    let parts3 = parts2.push(m.publisher);
    text::lemma_says(line3, parts3, m.entry, "'"@);
    let line4 = line3 + m.entry + "'"@;
    let parts4 = parts3.push(m.entry);
    assert(parts4 =~= seq![m.name, m.version, m.publisher, m.entry]);
    assert(package_line(m) =~= line4);
}

/// The log of a scan follows the paths: what is logged of two rows of paths
/// is what is logged of each, in order. Nothing is logged of a path that
/// names no package, or of a package that is in order. One that was changed
/// is reported, and one that cannot be read is named with the reason.
pub proof fn law_scans_are_logged_one_by_one(
    nodes: Map<Seq<char>, fs::Node>,
    archive: Seq<u8>,
    a: Seq<Seq<char>>,
    b: Seq<Seq<char>>,
    path: Seq<char>,
)
    ensures
        lines_on(nodes, archive, a + b) == lines_on(nodes, archive, a) + lines_on(
            nodes,
            archive,
            b,
        ),
        ({
            let alone = lines_on(nodes, archive, seq![path]);
            let node = nodes[path];
            let package = archive.subrange(node.offset as int, node.offset + node.len);
            let looked_at = names_package(path) && nodes.dom().contains(path)
                && !node.is_directory;
            let changed = header_problem(package) is None && !intact(package);
            &&& !looked_at ==> alone.len() == 0
            &&& looked_at ==> alone.len() == (if changed {
                1int
            } else {
                0
            }) + (if verdict_of(package) is Err {
                1int
            } else {
                0
            })
            &&& looked_at ==> (verdict_of(package) matches Err(e) ==> text::says(
                alone[alone.len() - 1],
                seq![path, e.text()],
            ))
        }),
    decreases b.len(),
{
    reveal_with_fuel(lines_on, 2);
    let single = seq![path];
    let none = Seq::<Seq<char>>::empty();
    assert(single.drop_last() =~= none);
    let node = nodes[path];
    let package = archive.subrange(node.offset as int, node.offset + node.len);
    if let Err(e) = verdict_of(package) {
        let start = "Najm Store: could not read '"@;
        let empty = Seq::<char>::empty();
        text::lemma_says(start, none, path, "' - "@);
        let line = start + path + "' - "@;
        text::lemma_says(line, none.push(path), e.text(), empty);
        assert(none.push(path).push(e.text()) =~= seq![path, e.text()]);
        assert(line + e.text() + empty =~= line + e.text());
    }
    if b.len() == 0 {
        assert(a + b =~= a);
        assert(lines_on(nodes, archive, a) + lines_on(nodes, archive, b) =~= lines_on(
            nodes,
            archive,
            a,
        ));
    } else {
        law_scans_are_logged_one_by_one(nodes, archive, a, b.drop_last(), path);
        assert((a + b).drop_last() =~= a + b.drop_last());
        assert((a + b).last() == b.last());
        assert(lines_on(nodes, archive, a + b) =~= lines_on(nodes, archive, a) + lines_on(
            nodes,
            archive,
            b,
        ));
    }
}

/// The report says of a package whether it is intact, what its signature is
/// worth, and which Realm it gets.
pub proof fn law_decisions_are_reported(v: VerdictView)
    ensures
        text::says(
            decision_line(v),
            seq![
                if v.integrity_ok {
                    "OK"@
                } else {
                    "FAILED"@
                },
                v.signature.spec_name()@,
                v.granted_realm.name@,
            ],
        ),
{
    let whole = if v.integrity_ok {
        "OK"@
    } else {
        "FAILED"@
    };
    let tail = " ("@ + (if v.request_denied {
        "the package requested a different Realm and was refused"@
    } else {
        "as requested"@
    }) + ")"@;
    let none = Seq::<Seq<char>>::empty();
    let start = "Najm Store:   integrity "@;
    text::lemma_says(start, none, whole, ", signature "@);
    let line1 = start + whole + ", signature "@;
    let parts1 = none.push(whole);
    text::lemma_says(line1, parts1, v.signature.spec_name()@, ", granted "@);
    let line2 = line1 + v.signature.spec_name()@ + ", granted "@;
    let parts2 = parts1.push(v.signature.spec_name()@);
    text::lemma_says(line2, parts2, v.granted_realm.name@, tail);
    let line3 = line2 + v.granted_realm.name@ + tail;
    let parts3 = parts2.push(v.granted_realm.name@);
    assert(parts3 =~= seq![whole, v.signature.spec_name()@, v.granted_realm.name@]);
    assert(decision_line(v) =~= line3);
}

} // verus!
