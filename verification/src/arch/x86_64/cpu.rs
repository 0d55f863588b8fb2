//! Processor features, and the protections that are switched on.
use vstd::prelude::*;

verus! {

/// The features the kernel's protections rest on.
#[derive(Debug, Clone, Copy, PartialEq, Eq, Structural)]
pub struct Features {
    pub nx: bool,
    pub smep: bool,
    pub smap: bool,
    pub umip: bool,
}

impl Default for Features {
    fn default() -> (r: Self)
        ensures
            r == (Features { nx: false, smep: false, smap: false, umip: false }),
    {
        Features { nx: false, smep: false, smap: false, umip: false }
    }
}

/// The identification registers that `detect` reads. A leaf the processor
/// does not support returns plausible nonsense, so the maxima come first.
#[derive(Debug, Clone, Copy, PartialEq, Eq, Structural)]
pub struct Identification {
    /// Highest supported extended leaf.
    pub max_extended: u32,
    /// EDX of leaf `0x8000_0001`.
    pub extended_edx: u32,
    /// Highest supported basic leaf.
    pub max_basic: u32,
    /// EBX of leaf 7.
    pub leaf7_ebx: u32,
    /// ECX of leaf 7.
    pub leaf7_ecx: u32,
}

/// Bit 20 of EDX of the extended feature leaf.
pub const NX_BIT: u32 = 0x10_0000;

/// Bit 7 of EBX of leaf 7.
pub const SMEP_BIT: u32 = 0x80;

/// Bit 20 of EBX of leaf 7.
pub const SMAP_BIT: u32 = 0x10_0000;

/// Bit 2 of ECX of leaf 7.
pub const UMIP_BIT: u32 = 0x4;

/// Which features the processor has. A leaf counts only where the maxima
/// say it exists.
pub fn detect(id: &Identification) -> (features: Features)
    ensures
        features.nx == (id.max_extended >= 0x8000_0001 && id.extended_edx & NX_BIT != 0),
        features.smep == (id.max_basic >= 7 && id.leaf7_ebx & SMEP_BIT != 0),
        features.smap == (id.max_basic >= 7 && id.leaf7_ebx & SMAP_BIT != 0),
        features.umip == (id.max_basic >= 7 && id.leaf7_ecx & UMIP_BIT != 0),
{
    let nx = if id.max_extended >= 0x8000_0001 {
        id.extended_edx & NX_BIT != 0
    } else {
        false
    };
    if id.max_basic >= 7 {
        Features {
            nx,
            smep: id.leaf7_ebx & SMEP_BIT != 0,
            smap: id.leaf7_ebx & SMAP_BIT != 0,
            umip: id.leaf7_ecx & UMIP_BIT != 0,
        }
    } else {
        Features { nx, smep: false, smap: false, umip: false }
    }
}

/// The control bits to set.
#[derive(Debug, Clone, Copy, PartialEq, Eq, Structural)]
pub struct Protections {
    /// Extended feature register: enable execute-disable.
    pub no_execute_enable: bool,
    /// Make the kernel itself respect read-only mappings.
    pub write_protect: bool,
    pub smep: bool,
    pub smap: bool,
    pub umip: bool,
}

/// What `enabled_str` says.
pub open spec fn enabled_text(enabled: bool) -> Seq<char> {
    if enabled {
        "on"@
    } else {
        "unavailable"@
    }
}

fn enabled_str(enabled: bool) -> (s: &'static str)
    ensures
        s@ == enabled_text(enabled),
{
    if enabled {
        "on"
    } else {
        "unavailable"
    }
}

/// The line that reports which protections are on.
pub open spec fn protections_line(f: Features) -> Seq<char> {
    "Najm Kernel: CPU protections - NX "@ + enabled_text(f.nx) + ", SMEP "@ + enabled_text(f.smep)
        + ", SMAP "@ + enabled_text(f.smap) + ", UMIP "@ + enabled_text(f.umip) + ", CR0.WP on"@
}

/// The line that says which features the processor lacks.
pub open spec fn missing_line(f: Features) -> Seq<char> {
    "Najm Kernel: NOTE - this CPU does not expose "@ + (if f.smep {
        ""@
    } else {
        "SMEP "@
    }) + (if f.smap {
        ""@
    } else {
        "SMAP"@
    })
        + ". That is a property of the CPU \
             model, not of this kernel; QEMU's default `qemu64` model omits both. Boot with \
             `-cpu host` (KVM) or `-cpu max` (TCG) to exercise them."@
}

/// Which protections to switch on, and the report. A bit is set only where
/// the processor has the feature: setting one that it lacks would fault.
/// Write protection needs no probe.
pub fn init(features: &Features) -> (r: (Protections, Vec<String>))
    ensures
        r.0 == (Protections {
            no_execute_enable: features.nx,
            write_protect: true,
            smep: features.smep,
            smap: features.smap,
            umip: features.umip,
        }),
        r.1@.len() == (if features.smep && features.smap {
            1int
        } else {
            2
        }),
        r.1@[0]@ == protections_line(*features),
        !(features.smep && features.smap) ==> r.1@[1]@ == missing_line(*features),
{
    let protections = Protections {
        no_execute_enable: features.nx,
        write_protect: true,
        smep: features.smep,
        smap: features.smap,
        umip: features.umip,
    };
    let mut lines: Vec<String> = Vec::new();
    let mut line = String::from_str("Najm Kernel: CPU protections - NX ");
    line.append(enabled_str(features.nx));
    line.append(", SMEP ");
    line.append(enabled_str(features.smep));
    line.append(", SMAP ");
    line.append(enabled_str(features.smap));
    line.append(", UMIP ");
    line.append(enabled_str(features.umip));
    line.append(", CR0.WP on");
    lines.push(line);
    if !features.smep || !features.smap {
        let mut note = String::from_str("Najm Kernel: NOTE - this CPU does not expose ");
        note.append(
            if features.smep {
                ""
            } else {
                "SMEP "
            },
        );
        note.append(
            if features.smap {
                ""
            } else {
                "SMAP"
            },
        );
        note.append(
            ". That is a property of the CPU \
             model, not of this kernel; QEMU's default `qemu64` model omits both. Boot with \
             `-cpu host` (KVM) or `-cpu max` (TCG) to exercise them.",
        );
        lines.push(note);
    }
    (protections, lines)
}

/// Whether kernel access to user memory has to be bracketed.
pub fn smap_enabled(protections: &Protections) -> (r: bool)
    ensures
        r == protections.smap,
{
    protections.smap
}

} // verus!
