//! The compositor, and the trusted path it protects.
//!
//! The top strip of the screen is the kernel's. Surfaces are placed and
//! clipped below it, in every mode, and the strip is drawn last, from
//! kernel state alone. It carries a signature of colours that is chosen at
//! boot and never leaves the kernel, so that a copy of the strip inside a
//! window can be told from the real one.
use vstd::prelude::*;
use crate::abi::realm_kind;
use crate::bytes::{self, read_u32};
use crate::drivers::input::{self, set_bounds, Input};
use crate::graphics::font::{self, is_lit, Font, ADVANCE, GLYPH_HEIGHT};
use crate::graphics::framebuffer::{self, Cells, Colour, Framebuffer};
use crate::graphics::theme::{self, Theme};
use crate::mm::memory::{self, copy_from_user_into};
use crate::text::chars_of;

verus! {

broadcast use vstd::slice::group_slice_axioms;

/// The height of the reserved strip.
pub const TRUST_BAR_HEIGHT: usize = 20;

/// How many colour blocks the boot signature has.
pub const SIGNATURE_BLOCKS: usize = 6;

/// The largest surface that may be created, in pixels. Without a limit a
/// program could use up the kernel's memory by asking.
pub const MAX_SURFACE_PIXELS: usize = 8 * 1024 * 1024;

/// How a surface occupies the screen.
#[derive(Debug, Clone, Copy, PartialEq, Eq, Structural)]
pub enum SurfaceMode {
    /// A window, with a border in its Realm's accent colour.
    Windowed,
    /// The whole content area, which is not the whole screen.
    Fullscreen,
}

/// One process's drawable region.
#[derive(Debug)]
pub struct Surface {
    pub id: u64,
    pub pid: u64,
    /// From the process table, not from the process.
    pub realm_kind: u64,
    pub title: String,
    pub x: usize,
    pub y: usize,
    pub width: usize,
    pub height: usize,
    pub mode: SurfaceMode,
    pub pixels: Vec<u32>,
}

/// What a surface is.
pub struct SurfaceView {
    pub id: u64,
    pub pid: u64,
    pub realm_kind: u64,
    pub title: Seq<char>,
    pub x: usize,
    pub y: usize,
    pub width: usize,
    pub height: usize,
    pub mode: SurfaceMode,
    pub pixels: Seq<u32>,
}

impl View for Surface {
    type V = SurfaceView;

    open spec fn view(&self) -> SurfaceView {
        SurfaceView {
            id: self.id,
            pid: self.pid,
            realm_kind: self.realm_kind,
            title: self.title@,
            x: self.x,
            y: self.y,
            width: self.width,
            height: self.height,
            mode: self.mode,
            pixels: self.pixels@,
        }
    }
}

/// A surface lies below the strip and has all its pixels. Where it ends is
/// not said: the screen may have become smaller since.
pub open spec fn surface_is_sound(s: SurfaceView) -> bool {
    &&& TRUST_BAR_HEIGHT <= s.y
    &&& s.x + s.width <= usize::MAX
    &&& s.y + s.height <= usize::MAX
    &&& 0 < s.width
    &&& 0 < s.height
    &&& s.pixels.len() == s.width * s.height
    &&& s.width * s.height <= MAX_SURFACE_PIXELS
}

impl Surface {
    /// How long a frame for this surface is, in bytes.
    pub fn frame_bytes(&self) -> (n: usize)
        requires
            self.width * self.height * 4 <= usize::MAX,
        ensures
            n == self.width * self.height * 4,
    {
        let pixels: usize = self.width * self.height;
        pixels * 4
    }
}

/// The surfaces, who has the focus, and what the strip shows.
#[derive(Debug)]
pub struct Compositor {
    framebuffer: Option<Framebuffer>,
    surfaces: Vec<Surface>,
    next_surface_id: u64,
    focused: Option<u64>,
    theme: Theme,
    signature: [Colour; 6],
    frames: u64,
    last_present_tick: u64,
    rejected_commits: u64,
}

/// What the compositor holds.
pub struct CompositorView {
    pub framebuffer: Option<Framebuffer>,
    /// Oldest first, so that the newest is on top.
    pub surfaces: Seq<SurfaceView>,
    pub next_surface_id: u64,
    /// The surface with the focus, whose Realm the strip names.
    pub focused: Option<u64>,
    pub theme: Theme,
    pub signature: Seq<Colour>,
    /// How many frames were drawn.
    pub frames: u64,
    /// The tick of the last frame.
    pub last_present_tick: u64,
    /// How many commits were refused.
    pub rejected_commits: u64,
}

/// The views of surfaces.
pub open spec fn surface_views(surfaces: Seq<Surface>) -> Seq<SurfaceView> {
    Seq::new(surfaces.len(), |i: int| surfaces[i]@)
}

impl View for Compositor {
    type V = CompositorView;

    closed spec fn view(&self) -> CompositorView {
        CompositorView {
            framebuffer: self.framebuffer,
            surfaces: surface_views(self.surfaces@),
            next_surface_id: self.next_surface_id,
            focused: self.focused,
            theme: self.theme,
            signature: self.signature@,
            frames: self.frames,
            last_present_tick: self.last_present_tick,
            rejected_commits: self.rejected_commits,
        }
    }
}

/// Every surface lies below the strip, and identifiers are in order.
pub open spec fn compositor_is_regular(v: CompositorView) -> bool {
    &&& v.signature.len() == SIGNATURE_BLOCKS
    &&& v.framebuffer matches Some(fb) ==> fb.wf()
    &&& forall|i: int| 0 <= i < v.surfaces.len() ==> surface_is_sound(#[trigger] v.surfaces[i])
    &&& forall|i: int|
        0 <= i < v.surfaces.len() ==> (#[trigger] v.surfaces[i]).id < v.next_surface_id
    &&& forall|i: int, j: int|
        0 <= i < j < v.surfaces.len() ==> (#[trigger] v.surfaces[i]).id < (
        #[trigger] v.surfaces[j]).id
}

// ---------------------------------------------------------------------
// The boot signature
// ---------------------------------------------------------------------

/// The colours a signature is made of: few, and far apart.
pub open spec fn palette(i: int) -> Colour {
    if i == 0 {
        Colour { r: 0xE6, g: 0x39, b: 0x46 }
    } else if i == 1 {
        Colour { r: 0xF7, g: 0x9D, b: 0x1E }
    } else if i == 2 {
        Colour { r: 0xFF, g: 0xD1, b: 0x66 }
    } else if i == 3 {
        Colour { r: 0x4C, g: 0xC9, b: 0x7C }
    } else if i == 4 {
        Colour { r: 0x2E, g: 0xC4, b: 0xB6 }
    } else if i == 5 {
        Colour { r: 0x3A, g: 0x86, b: 0xFF }
    } else if i == 6 {
        Colour { r: 0x9B, g: 0x5D, b: 0xE5 }
    } else {
        Colour { r: 0xF1, g: 0x5B, b: 0xB5 }
    }
}

fn palette_colour(i: u64) -> (c: Colour)
    ensures
        c == palette(i as int),
{
    if i == 0 {
        Colour::rgb(0xE6, 0x39, 0x46)
    } else if i == 1 {
        Colour::rgb(0xF7, 0x9D, 0x1E)
    } else if i == 2 {
        Colour::rgb(0xFF, 0xD1, 0x66)
    } else if i == 3 {
        Colour::rgb(0x4C, 0xC9, 0x7C)
    } else if i == 4 {
        Colour::rgb(0x2E, 0xC4, 0xB6)
    } else if i == 5 {
        Colour::rgb(0x3A, 0x86, 0xFF)
    } else if i == 6 {
        Colour::rgb(0x9B, 0x5D, 0xE5)
    } else {
        Colour::rgb(0xF1, 0x5B, 0xB5)
    }
}

/// One step of the generator that spreads the seed.
pub open spec fn scrambled(state: u64) -> u64 {
    let a = state ^ (state << 13u64);
    let b = a ^ (a >> 7u64);
    b ^ (b << 17u64)
}

/// The generator's state after `n` steps.
pub open spec fn scrambled_times(seed: u64, n: nat) -> u64
    decreases n,
{
    if n == 0 {
        seed
    } else {
        scrambled(scrambled_times(seed, (n - 1) as nat))
    }
}

/// The signature that a seed gives.
pub open spec fn signature_from(seed: u64) -> Seq<Colour> {
    Seq::new(
        SIGNATURE_BLOCKS as nat,
        |i: int| palette((scrambled_times(seed, (i + 1) as nat) % 8) as int),
    )
}

fn make_signature(seed: u64) -> (signature: [Colour; 6])
    ensures
        signature@ == signature_from(seed),
{
    let black = Colour::rgb(0, 0, 0);
    let mut signature: [Colour; 6] = [black;6];
    let mut state: u64 = seed;
    let mut i: usize = 0;
    while i < SIGNATURE_BLOCKS
        invariant
            i <= SIGNATURE_BLOCKS,
            state == scrambled_times(seed, i as nat),
            forall|k: int| 0 <= k < i ==> signature@[k] == signature_from(seed)[k],
        decreases SIGNATURE_BLOCKS - i,
    {
        state = state ^ (state << 13u64);
        state = state ^ (state >> 7u64);
        state = state ^ (state << 17u64);
        signature[i] = palette_colour(state % 8);
        i += 1;
    }
    assert(signature@ =~= signature_from(seed));
    signature
}

impl Compositor {
    pub open spec fn wf(&self) -> bool {
        compositor_is_regular(self@)
    }

    /// No screen and no surfaces yet.
    pub fn new() -> (r: Compositor)
        ensures
            r.wf(),
            r@.framebuffer is None,
            r@.surfaces == Seq::<SurfaceView>::empty(),
            r@.next_surface_id == 1,
            r@.focused is None,
            r@.theme == theme::built_in(),
            r@.signature == Seq::new(
                SIGNATURE_BLOCKS as nat,
                |i: int| Colour { r: 0, g: 0, b: 0 },
            ),
            r@.frames == 0,
            r@.last_present_tick == 0,
            r@.rejected_commits == 0,
    {
        let black = Colour::rgb(0, 0, 0);
        let r = Compositor {
            framebuffer: None,
            surfaces: Vec::new(),
            next_surface_id: 1,
            focused: None,
            theme: Theme::default(),
            signature: [black;6],
            frames: 0,
            last_present_tick: 0,
            rejected_commits: 0,
        };
        assert(r@.surfaces =~= Seq::<SurfaceView>::empty());
        assert(r@.signature =~= Seq::new(
            SIGNATURE_BLOCKS as nat,
            |i: int| Colour { r: 0, g: 0, b: 0 },
        ));
        r
    }

    /// The position of a surface.
    fn find(&self, id: u64) -> (r: Option<usize>)
        ensures
            match r {
                Some(i) => surface_at(self@.surfaces, id, 0) == Some(i as int) && i
                    < self.surfaces.len(),
                None => surface_at(self@.surfaces, id, 0) is None,
            },
    {
        let mut i: usize = 0;
        while i < self.surfaces.len()
            invariant
                i <= self.surfaces.len(),
                surface_at(self@.surfaces, id, 0) == surface_at(self@.surfaces, id, i as int),
            decreases self.surfaces.len() - i,
        {
            if self.surfaces[i].id == id {
                return Some(i);
            }
            i += 1;
        }
        None
    }
}

/// The position of the first surface with identifier `id` from `i` on.
pub open spec fn surface_at(surfaces: Seq<SurfaceView>, id: u64, i: int) -> Option<int>
    decreases surfaces.len() - i,
{
    if i < 0 || i >= surfaces.len() {
        None
    } else if surfaces[i].id == id {
        Some(i)
    } else {
        surface_at(surfaces, id, i + 1)
    }
}

/// Sets up the compositor for a screen. The seed is the processor's time
/// stamp, which no process can have seen. Pointer movements are confined
/// to the screen from now on. Surfaces that exist already stay where they
/// are, and are drawn as far as the screen reaches.
pub fn init(
    compositor: &mut Compositor,
    input: &mut Input,
    framebuffer: Framebuffer,
    theme: Theme,
    seed: u64,
)
    requires
        old(compositor).wf(),
        old(input).wf(),
        framebuffer.wf(),
    ensures
        final(compositor).wf(),
        final(compositor)@ == (CompositorView {
            framebuffer: Some(framebuffer),
            theme,
            signature: signature_from(seed),
            ..old(compositor)@
        }),
        final(input).wf(),
        final(input)@ == (input::InputView {
            bounds: (framebuffer.width as u64, framebuffer.height as u64),
            pointer: (framebuffer.width as u64 / 2, framebuffer.height as u64 / 2),
            ..old(input)@
        }),
{
    let ghost before = compositor@;
    compositor.framebuffer = Some(framebuffer);
    compositor.theme = theme;
    compositor.signature = make_signature(seed);
    assert(compositor@.surfaces =~= before.surfaces);
    set_bounds(input, framebuffer.width as u64, framebuffer.height as u64);
}

/// The region surfaces may occupy: its left and top edge, width and
/// height.
pub fn content_region(framebuffer: &Framebuffer) -> (r: (usize, usize, usize, usize))
    ensures
        r.0 == 0,
        r.1 == TRUST_BAR_HEIGHT,
        r.2 == framebuffer.width,
        r.3 == content_height(*framebuffer),
{
    (
        0,
        TRUST_BAR_HEIGHT,
        framebuffer.width,
        framebuffer.height.saturating_sub(TRUST_BAR_HEIGHT),
    )
}

/// The height of the content region.
pub open spec fn content_height(fb: Framebuffer) -> int {
    if fb.height >= TRUST_BAR_HEIGHT {
        fb.height - TRUST_BAR_HEIGHT
    } else {
        0
    }
}

/// The smaller of two numbers.
pub open spec fn least(a: int, b: int) -> int {
    if a <= b {
        a
    } else {
        b
    }
}

/// Where a surface goes: left edge, top edge, width and height. Windows
/// cascade, so that a second one does not cover the first.
pub open spec fn placement(
    fb: Framebuffer,
    index: int,
    width: int,
    height: int,
    mode: SurfaceMode,
) -> (int, int, int, int) {
    match mode {
        SurfaceMode::Fullscreen => (0, TRUST_BAR_HEIGHT as int, fb.width as int, content_height(fb)),
        SurfaceMode::Windowed => {
            let w = least(width, fb.width as int);
            let h = least(height, content_height(fb));
            (
                least(40 + index * 30, fb.width - w),
                least(
                    TRUST_BAR_HEIGHT + 30 + index * 26,
                    TRUST_BAR_HEIGHT + content_height(fb) - h,
                ),
                w,
                h,
            )
        },
    }
}

/// Where window `index` goes along one axis, no further than `limit`.
fn cascade(first: usize, index: usize, step: usize, limit: usize) -> (at: usize)
    requires
        0 < step < 100,
        first < 100,
    ensures
        at == least(first + index * step, limit as int),
{
    let most: usize = (usize::MAX - first) / step;
    if index > most {
        assert(first + index * step > usize::MAX) by (nonlinear_arith)
            requires
                most == (usize::MAX - first) / (step as int),
                index > most,
                0 < step,
                first < 100,
        ;
        return limit;
    }
    assert(first + index * step <= usize::MAX) by (nonlinear_arith)
        requires
            most == (usize::MAX - first) / (step as int),
            index <= most,
            0 < step,
            first < 100,
    ;
    let at: usize = first + index * step;
    if at <= limit {
        at
    } else {
        limit
    }
}

/// Whether a surface of that size can be created.
pub open spec fn size_is_acceptable(width: int, height: int) -> bool {
    0 < width && 0 < height && width * height <= MAX_SURFACE_PIXELS
}

/// The state after a surface was created, and its identifier.
pub open spec fn created(
    v: CompositorView,
    pid: u64,
    realm_kind: u64,
    title: Seq<char>,
    width: int,
    height: int,
    mode: SurfaceMode,
) -> (CompositorView, Option<u64>) {
    match v.framebuffer {
        None => (v, None),
        Some(fb) => {
            let (px, py, pw, ph) = placement(fb, v.surfaces.len() as int, width, height, mode);
            if size_is_acceptable(pw, ph) {
                (
                    CompositorView {
                        surfaces: v.surfaces.push(
                            SurfaceView {
                                id: v.next_surface_id,
                                pid,
                                realm_kind,
                                title,
                                x: px as usize,
                                y: py as usize,
                                width: pw as usize,
                                height: ph as usize,
                                mode,
                                pixels: Seq::new((pw * ph) as nat, |i: int| 0u32),
                            },
                        ),
                        next_surface_id: (v.next_surface_id + 1) as u64,
                        focused: Some(v.next_surface_id),
                        ..v
                    },
                    Some(v.next_surface_id),
                )
            } else {
                (v, None)
            }
        },
    }
}

/// Creates a surface for `pid` and gives it the focus. `None` without a
/// screen, for an empty surface, and for one that is too large.
#[verifier::rlimit(30)]
pub fn create_surface(
    compositor: &mut Compositor,
    pid: u64,
    realm_kind: u64,
    title: &str,
    width: usize,
    height: usize,
    mode: SurfaceMode,
) -> (r: Option<u64>)
    requires
        old(compositor).wf(),
        old(compositor)@.next_surface_id < u64::MAX,
    ensures
        final(compositor).wf(),
        (final(compositor)@, r) == created(
            old(compositor)@,
            pid,
            realm_kind,
            title@,
            width as int,
            height as int,
            mode,
        ),
{
    let ghost before = compositor@;
    let fb: Framebuffer = match compositor.framebuffer {
        Some(fb) => fb,
        None => {
            return None;
        },
    };
    let (_, content_y, content_width, content_height) = content_region(&fb);
    let index: usize = compositor.surfaces.len();
    let mut x: usize = 0;
    let mut y: usize = content_y;
    let mut w: usize = content_width;
    let mut h: usize = content_height;
    if mode == SurfaceMode::Windowed {
        if width < w {
            w = width;
        }
        if height < h {
            h = height;
        }
        x = cascade(40, index, 30, content_width - w);
        y = cascade(content_y + 30, index, 26, content_y + (content_height - h));
    }
    let ghost place = placement(fb, index as int, width as int, height as int, mode);
    assert(place == (x as int, y as int, w as int, h as int));
    if w == 0 || h == 0 {
        return None;
    }
    let pixels: usize = match w.checked_mul(h) {
        Some(pixels) => pixels,
        None => {
            return None;
        },
    };
    if pixels > MAX_SURFACE_PIXELS {
        return None;
    }
    let mut buffer: Vec<u32> = Vec::new();
    buffer.resize(pixels, 0);
    assert(buffer@ =~= Seq::new((w * h) as nat, |i: int| 0u32));
    let id: u64 = compositor.next_surface_id;
    compositor.next_surface_id = id + 1;
    let surface = Surface {
        id,
        pid,
        realm_kind,
        title: String::from_str(title),
        x,
        y,
        width: w,
        height: h,
        mode,
        pixels: buffer,
    };
    let ghost view = surface@;
    compositor.surfaces.push(surface);
    compositor.focused = Some(id);
    proof {
        assert(compositor@.surfaces =~= before.surfaces.push(view));
        assert(surface_is_sound(view));
        let after = compositor@.surfaces;
        assert forall|i: int| 0 <= i < after.len() implies surface_is_sound(
            #[trigger] after[i],
        ) && after[i].id < id + 1 by {
            if i < before.surfaces.len() {
                assert(after[i] == before.surfaces[i]);
            }
        }
    }
    Some(id)
}

/// The pixels that the bytes of a frame are.
pub open spec fn pixels_of(bytes: Seq<u8>) -> Seq<u32> {
    Seq::new((bytes.len() / 4) as nat, |i: int| bytes::le32(bytes, 4 * i) as u32)
}

/// The state with other pixels for one surface.
pub open spec fn with_pixels(v: CompositorView, i: int, pixels: Seq<u32>) -> CompositorView {
    CompositorView {
        surfaces: v.surfaces.update(i, SurfaceView { pixels, ..v.surfaces[i] }),
        ..v
    }
}

/// The state with one more refused commit.
pub open spec fn with_refusal(v: CompositorView) -> CompositorView {
    CompositorView { rejected_commits: (v.rejected_commits + 1) as u64, ..v }
}

proof fn lemma_with_pixels_is_regular(v: CompositorView, i: int, pixels: Seq<u32>)
    requires
        compositor_is_regular(v),
        0 <= i < v.surfaces.len(),
        pixels.len() == v.surfaces[i].pixels.len(),
    ensures
        compositor_is_regular(with_pixels(v, i, pixels)),
{
    let after = with_pixels(v, i, pixels);
    assert forall|k: int| 0 <= k < after.surfaces.len() implies surface_is_sound(
        #[trigger] after.surfaces[k],
    ) by {
        assert(surface_is_sound(v.surfaces[k]));
    }
    assert forall|k: int| 0 <= k < after.surfaces.len() implies (#[trigger] after.surfaces[k]).id
        < after.next_surface_id by {
        assert(after.surfaces[k].id == v.surfaces[k].id);
    }
    assert forall|a: int, b: int| 0 <= a < b < after.surfaces.len() implies (
    #[trigger] after.surfaces[a]).id < (#[trigger] after.surfaces[b]).id by {
        assert(after.surfaces[a].id == v.surfaces[a].id && after.surfaces[b].id
            == v.surfaces[b].id);
    }
}

pub proof fn lemma_surface_at(surfaces: Seq<SurfaceView>, id: u64, i: int)
    requires
        0 <= i,
    ensures
        match surface_at(surfaces, id, i) {
            Some(k) => i <= k < surfaces.len() && surfaces[k].id == id,
            None => forall|k: int| i <= k < surfaces.len() ==> (#[trigger] surfaces[k]).id != id,
        },
    decreases surfaces.len() - i,
{
    if i < surfaces.len() && surfaces[i].id != id {
        lemma_surface_at(surfaces, id, i + 1);
    }
}

/// The state after a frame was committed from a process's memory, and
/// whether it was accepted.
pub open spec fn committed(
    v: CompositorView,
    memory: Seq<u8>,
    root: int,
    id: u64,
    pid: u64,
    ptr: u64,
    len: int,
) -> (CompositorView, bool) {
    match surface_at(v.surfaces, id, 0) {
        None => (v, false),
        Some(i) => if v.surfaces[i].pid != pid || len != v.surfaces[i].pixels.len() * 4 {
            (with_refusal(v), false)
        } else {
            match memory::user_bytes(memory, root, ptr, len as u64) {
                Some(bytes) => (with_pixels(v, i, pixels_of(bytes)), true),
                None => (with_refusal(v), false),
            }
        },
    }
}

/// Replaces a surface's contents from its owner's memory. The frame must
/// be exactly the surface's size: a shorter one would leave pixels that
/// are not the program's.
pub fn commit_surface_from_user(
    compositor: &mut Compositor,
    mem: &[u8],
    root: u64,
    id: u64,
    pid: u64,
    ptr: u64,
    len: usize,
) -> (ok: bool)
    requires
        old(compositor).wf(),
        old(compositor)@.rejected_commits < u64::MAX,
        root <= 0x10_0000_0000_0000,
    ensures
        final(compositor).wf(),
        (final(compositor)@, ok) == committed(
            old(compositor)@,
            mem@,
            root as int,
            id,
            pid,
            ptr,
            len as int,
        ),
{
    let ghost before = compositor@;
    let i: usize = match compositor.find(id) {
        Some(i) => i,
        None => {
            return false;
        },
    };
    assert(surface_is_sound(before.surfaces[i as int]));
    let count: usize = compositor.surfaces[i].pixels.len();
    if compositor.surfaces[i].pid != pid || len != count * 4 {
        compositor.rejected_commits += 1;
        assert(compositor@.surfaces =~= before.surfaces);
        return false;
    }
    let mut frame: Vec<u8> = Vec::new();
    frame.resize(len, 0);
    if !copy_from_user_into(mem, root, ptr, &mut frame) {
        compositor.rejected_commits += 1;
        assert(compositor@.surfaces =~= before.surfaces);
        return false;
    }
    proof {
        memory::lemma_user_bytes_len(mem@, root as int, ptr, len as u64);
    }
    let ghost bytes = frame@;
    let mut pixels: Vec<u32> = Vec::new();
    let mut k: usize = 0;
    while k < count
        invariant
            k <= count,
            frame@ == bytes,
            bytes.len() == count * 4,
            len == count * 4,
            pixels@.len() == k,
            forall|j: int| 0 <= j < k ==> #[trigger] pixels@[j] == pixels_of(bytes)[j],
        decreases count - k,
    {
        pixels.push(read_u32(frame.as_slice(), 4 * k));
        k += 1;
    }
    assert(pixels@ =~= pixels_of(bytes));
    let ghost new_pixels = pixels@;
    compositor.surfaces[i].pixels = pixels;
    proof {
        lemma_with_pixels_is_regular(before, i as int, new_pixels);
        assert(compositor@.surfaces =~= with_pixels(before, i as int, new_pixels).surfaces);
    }
    true
}

/// Replaces a surface's contents with pixels that the kernel holds.
pub fn commit_surface(compositor: &mut Compositor, id: u64, pid: u64, pixels: &[u32]) -> (ok: bool)
    requires
        old(compositor).wf(),
        old(compositor)@.rejected_commits < u64::MAX,
    ensures
        final(compositor).wf(),
        ({
            let v = old(compositor)@;
            match surface_at(v.surfaces, id, 0) {
                None => !ok && final(compositor)@ == v,
                Some(i) => if v.surfaces[i].pid != pid || pixels@.len()
                    != v.surfaces[i].pixels.len() {
                    !ok && final(compositor)@ == with_refusal(v)
                } else {
                    ok && final(compositor)@ == with_pixels(v, i, pixels@)
                },
            }
        }),
{
    let ghost before = compositor@;
    let i: usize = match compositor.find(id) {
        Some(i) => i,
        None => {
            return false;
        },
    };
    if compositor.surfaces[i].pid != pid || pixels.len() != compositor.surfaces[i].pixels.len() {
        compositor.rejected_commits += 1;
        assert(compositor@.surfaces =~= before.surfaces);
        return false;
    }
    let mut copy: Vec<u32> = Vec::new();
    let mut k: usize = 0;
    while k < pixels.len()
        invariant
            k <= pixels.len(),
            copy@ == pixels@.subrange(0, k as int),
        decreases pixels.len() - k,
    {
        copy.push(pixels[k]);
        k += 1;
        assert(copy@ =~= pixels@.subrange(0, k as int));
    }
    assert(copy@ =~= pixels@);
    compositor.surfaces[i].pixels = copy;
    proof {
        lemma_with_pixels_is_regular(before, i as int, pixels@);
        assert(compositor@.surfaces =~= with_pixels(before, i as int, pixels@).surfaces);
    }
    true
}

/// The surfaces of every process but `pid`.
pub open spec fn surfaces_without(surfaces: Seq<SurfaceView>, pid: u64) -> Seq<SurfaceView>
    decreases surfaces.len(),
{
    if surfaces.len() == 0 {
        Seq::empty()
    } else {
        let rest = surfaces_without(surfaces.drop_last(), pid);
        if surfaces.last().pid == pid {
            rest
        } else {
            rest.push(surfaces.last())
        }
    }
}

/// Where the focus goes when surfaces have disappeared: it stays, if its
/// surface is still there, and goes to the newest one otherwise.
pub open spec fn refocused(surfaces: Seq<SurfaceView>, focused: Option<u64>) -> Option<u64> {
    match focused {
        None => None,
        Some(id) => if surface_at(surfaces, id, 0) is Some {
            Some(id)
        } else if surfaces.len() > 0 {
            Some(surfaces.last().id)
        } else {
            None
        },
    }
}

proof fn lemma_surfaces_without(surfaces: Seq<SurfaceView>, pid: u64)
    ensures
        surfaces_without(surfaces, pid).len() <= surfaces.len(),
        forall|k: int|
            0 <= k < surfaces_without(surfaces, pid).len() ==> (#[trigger] surfaces_without(
                surfaces,
                pid,
            )[k]).pid != pid && surfaces.contains(surfaces_without(surfaces, pid)[k]),
        (forall|i: int, j: int|
            0 <= i < j < surfaces.len() ==> (#[trigger] surfaces[i]).id < (
            #[trigger] surfaces[j]).id) ==> (forall|i: int, j: int|
            0 <= i < j < surfaces_without(surfaces, pid).len() ==> (#[trigger] surfaces_without(
                surfaces,
                pid,
            )[i]).id < (#[trigger] surfaces_without(surfaces, pid)[j]).id),
    decreases surfaces.len(),
{
    if surfaces.len() > 0 {
        let front = surfaces.drop_last();
        lemma_surfaces_without(front, pid);
        let rest = surfaces_without(front, pid);
        let all = surfaces_without(surfaces, pid);
        assert forall|k: int| 0 <= k < all.len() implies (#[trigger] all[k]).pid != pid
            && surfaces.contains(all[k]) by {
            if k < rest.len() {
                assert(front.contains(rest[k]));
                let n = choose|n: int| 0 <= n < front.len() && front[n] == rest[k];
                assert(surfaces[n] == all[k]);
            } else {
                assert(surfaces[surfaces.len() - 1] == all[k]);
            }
        }
        if forall|i: int, j: int|
            0 <= i < j < surfaces.len() ==> (#[trigger] surfaces[i]).id < (
            #[trigger] surfaces[j]).id {
            assert forall|i: int, j: int| 0 <= i < j < front.len() implies (
            #[trigger] front[i]).id < (#[trigger] front[j]).id by {
                assert(front[i] == surfaces[i] && front[j] == surfaces[j]);
            }
            assert forall|i: int, j: int| 0 <= i < j < all.len() implies (#[trigger] all[i]).id < (
            #[trigger] all[j]).id by {
                if j == rest.len() {
                    assert(front.contains(rest[i]));
                    let n = choose|n: int| 0 <= n < front.len() && front[n] == rest[i];
                    assert(surfaces[n].id < surfaces[surfaces.len() - 1].id);
                }
            }
        }
    }
}

/// Removes every surface of a process that has ended. Its identifiers are
/// not used again.
pub fn remove_surfaces_for(compositor: &mut Compositor, pid: u64)
    requires
        old(compositor).wf(),
    ensures
        final(compositor).wf(),
        final(compositor)@ == (CompositorView {
            surfaces: surfaces_without(old(compositor)@.surfaces, pid),
            focused: refocused(
                surfaces_without(old(compositor)@.surfaces, pid),
                old(compositor)@.focused,
            ),
            ..old(compositor)@
        }),
{
    let ghost before = compositor@;
    let ghost all = before.surfaces;
    let total: usize = compositor.surfaces.len();
    let mut i: usize = 0;
    let mut removed: usize = 0;
    proof {
        assert(all.subrange(0, 0) =~= Seq::<SurfaceView>::empty());
        assert(Seq::<SurfaceView>::empty() + all.subrange(0, all.len() as int) =~= all);
    }
    while i < compositor.surfaces.len()
        invariant
            all == before.surfaces,
            total == all.len(),
            i <= compositor.surfaces.len(),
            i + removed <= all.len(),
            compositor.surfaces.len() + removed == all.len(),
            compositor@ == (CompositorView { surfaces: compositor@.surfaces, ..before }),
            compositor@.surfaces == surfaces_without(all.subrange(0, i + removed), pid)
                + all.subrange(i + removed, all.len() as int),
            surfaces_without(all.subrange(0, i + removed), pid).len() == i,
        decreases compositor.surfaces.len() - i,
    {
        let ghost now = compositor@.surfaces;
        let ghost at = i + removed;
        let ghost kept = surfaces_without(all.subrange(0, at), pid);
        assert(all.subrange(0, at + 1).drop_last() =~= all.subrange(0, at));
        assert(now[i as int] == all[at]);
        if compositor.surfaces[i].pid == pid {
            let gone = compositor.surfaces.remove(i);
            removed += 1;
            assert(compositor@.surfaces =~= now.remove(i as int));
            assert(compositor@.surfaces =~= kept + all.subrange(at + 1, all.len() as int));
        } else {
            assert(now =~= kept.push(all[at]) + all.subrange(at + 1, all.len() as int));
            i += 1;
        }
    }
    proof {
        assert(all.subrange(0, i + removed) =~= all);
        assert(compositor@.surfaces =~= surfaces_without(all, pid));
        lemma_surfaces_without(all, pid);
        let left = compositor@.surfaces;
        assert forall|k: int| 0 <= k < left.len() implies (#[trigger] left[k]).id
            < before.next_surface_id && surface_is_sound(left[k]) by {
            assert(all.contains(left[k]));
            let n = choose|n: int| 0 <= n < all.len() && all[n] == left[k];
            assert(all[n].id < before.next_surface_id);
        }
    }
    let ghost left = compositor@;
    if let Some(focused) = compositor.focused {
        if compositor.find(focused).is_none() {
            let n: usize = compositor.surfaces.len();
            if n > 0 {
                compositor.focused = Some(compositor.surfaces[n - 1].id);
            } else {
                compositor.focused = None;
            }
            assert(compositor@.surfaces =~= left.surfaces);
        }
    }
}

/// The geometry of a surface that `pid` owns.
pub open spec fn geometry(surfaces: Seq<SurfaceView>, id: u64, pid: u64) -> Option<(usize, usize)> {
    match surface_at(surfaces, id, 0) {
        Some(i) if surfaces[i].pid == pid => Some((surfaces[i].width, surfaces[i].height)),
        _ => None,
    }
}

/// A surface's width and height, for its owner. To anyone else there is no
/// such surface.
pub fn surface_geometry(compositor: &Compositor, id: u64, pid: u64) -> (r: Option<(usize, usize)>)
    requires
        compositor.wf(),
    ensures
        r == geometry(compositor@.surfaces, id, pid),
        r matches Some(size) ==> size_is_acceptable(size.0 as int, size.1 as int),
{
    match compositor.find(id) {
        Some(i) => {
            let surface = &compositor.surfaces[i];
            assert(surface_is_sound(compositor@.surfaces[i as int]));
            if surface.pid == pid {
                Some((surface.width, surface.height))
            } else {
                None
            }
        },
        None => None,
    }
}

/// How many surfaces there are, how many frames were drawn and how many
/// commits refused.
pub fn stats(compositor: &Compositor) -> (r: (usize, u64, u64))
    ensures
        r.0 == compositor@.surfaces.len(),
        r.1 == compositor@.frames,
        r.2 == compositor@.rejected_commits,
{
    (compositor.surfaces.len(), compositor.frames, compositor.rejected_commits)
}

/// Whether any surface's placement overlaps the reserved strip. This looks
/// at the surfaces themselves and takes nothing for granted; placement is
/// such that none ever does.
pub fn any_surface_overlaps_trust_bar(compositor: &Compositor) -> (r: bool)
    ensures
        r == (exists|i: int|
            0 <= i < compositor@.surfaces.len() && (#[trigger] compositor@.surfaces[i]).y
                < TRUST_BAR_HEIGHT),
        compositor.wf() ==> !r,
{
    let mut i: usize = 0;
    while i < compositor.surfaces.len()
        invariant
            i <= compositor.surfaces.len(),
            forall|k: int|
                0 <= k < i ==> (#[trigger] compositor@.surfaces[k]).y >= TRUST_BAR_HEIGHT,
        decreases compositor.surfaces.len() - i,
    {
        assert(compositor@.surfaces[i as int].y == compositor.surfaces@[i as int].y);
        if compositor.surfaces[i].y < TRUST_BAR_HEIGHT {
            assert(compositor.wf() ==> surface_is_sound(compositor@.surfaces[i as int]));
            return true;
        }
        i += 1;
    }
    false
}

/// Reads back what is displayed at a position. `None` without a screen and
/// off it.
pub fn read_pixel(compositor: &Compositor, mem: &[u8], x: usize, y: usize) -> (r: Option<
    (u8, u8, u8),
>)
    requires
        compositor@.framebuffer matches Some(fb) ==> fb.can_be_read(
            mem@.len(),
            x as int,
            y as int,
        ),
    ensures
        r == (match compositor@.framebuffer {
            Some(fb) if x < fb.width && y < fb.height => Some(
                fb.shown(mem@, x as int, y as int),
            ),
            _ => None,
        }),
{
    match compositor.framebuffer {
        Some(fb) => fb.read_pixel(mem, x, y),
        None => None,
    }
}

/// The colours of the boot signature.
pub fn signature_colours(compositor: &Compositor) -> (r: [Colour; 6])
    ensures
        r@ == compositor@.signature,
{
    compositor.signature
}

/// Where the signature's blocks start.
pub open spec fn signature_x(fb: Framebuffer) -> int {
    if fb.width >= 86 {
        fb.width - 86
    } else {
        0
    }
}

/// The middle of a block of the signature, so that a test looks at the
/// right pixels. Past the last block it is where another one would be.
pub fn signature_block_origin(compositor: &Compositor, index: usize) -> (r: Option<(usize, usize)>)
    requires
        compositor@.framebuffer matches Some(fb) ==> signature_x(fb) + index * 13 + 5
            <= usize::MAX,
    ensures
        match (compositor@.framebuffer, r) {
            (Some(fb), Some(at)) => at.0 == signature_x(fb) + index * 13 + 5 && at.1 == 10,
            (None, None) => true,
            _ => false,
        },
{
    match compositor.framebuffer {
        Some(fb) => {
            let x: usize = fb.width.saturating_sub(86) + index * 13;
            Some((x + 5, 10))
        },
        None => None,
    }
}

// ---------------------------------------------------------------------
// Drawing
// ---------------------------------------------------------------------

/// Text, as far as the columns and rows that come before column `c`, row
/// `r` of character `i`.
pub open spec fn text_cells_before(
    font: Font,
    text: Seq<char>,
    x: int,
    y: int,
    colour: Colour,
    i: int,
    c: int,
    r: int,
) -> Cells {
    |px: int, py: int|
        {
            let n = (px - x) / 6;
            let column = (px - x) % 6;
            let row = py - y;
            if px >= x && 0 <= row < 7 && n < text.len() && column < 5 && (n < i || (n == i
                && (column < c || (column == c && row < r)))) && font::lit(
                font.shape(text[n])@[column],
                row,
            ) {
                Some(colour)
            } else {
                None
            }
        }
}

/// Text: every lit pixel of every character's shape.
pub open spec fn text_cells(font: Font, text: Seq<char>, x: int, y: int, colour: Colour) -> Cells {
    text_cells_before(font, text, x, y, colour, text.len() as int, 0, 0)
}

/// Draws `text` at a position.
#[verifier::rlimit(40)]
pub fn draw_text(
    framebuffer: &Framebuffer,
    mem: &mut [u8],
    font: &Font,
    x: usize,
    y: usize,
    text: &str,
    colour: Colour,
)
    requires
        framebuffer.wf(),
        old(mem)@.len() == framebuffer.len,
        x + 6 * text@.len() <= usize::MAX,
        y + 7 <= usize::MAX,
    ensures
        final(mem)@.len() == framebuffer.len,
        final(mem)@ == framebuffer.drawn(
            old(mem)@,
            text_cells(*font, text@, x as int, y as int, colour),
        ),
{
    let ghost before = mem@;
    let s: Vec<char> = chars_of(text);
    let mut i: usize = 0;
    proof {
        framebuffer::lemma_drawn_nothing(
            *framebuffer,
            before,
            text_cells_before(*font, text@, x as int, y as int, colour, 0, 0, 0),
        );
    }
    while i < s.len()
        invariant
            framebuffer.wf(),
            s@ == text@,
            i <= s.len(),
            x + 6 * text@.len() <= usize::MAX,
            y + 7 <= usize::MAX,
            before.len() == framebuffer.len,
            mem@.len() == framebuffer.len,
            mem@ == framebuffer.drawn(
                before,
                text_cells_before(*font, text@, x as int, y as int, colour, i as int, 0, 0),
            ),
        decreases s.len() - i,
    {
        let cursor: usize = x + i * ADVANCE;
        let glyph: [u8; 5] = font.glyph(s[i]);
        let mut c: usize = 0;
        while c < 5
            invariant
                framebuffer.wf(),
                s@ == text@,
                i < s.len(),
                c <= 5,
                cursor == x + 6 * i,
                x + 6 * text@.len() <= usize::MAX,
                y + 7 <= usize::MAX,
                glyph == font.shape(text@[i as int]),
                before.len() == framebuffer.len,
                mem@.len() == framebuffer.len,
                mem@ == framebuffer.drawn(
                    before,
                    text_cells_before(
                        *font,
                        text@,
                        x as int,
                        y as int,
                        colour,
                        i as int,
                        c as int,
                        0,
                    ),
                ),
            decreases 5 - c,
        {
            let mut r: usize = 0;
            while r < GLYPH_HEIGHT
                invariant
                    framebuffer.wf(),
                    s@ == text@,
                    i < s.len(),
                    c < 5,
                    r <= 7,
                    cursor == x + 6 * i,
                    x + 6 * text@.len() <= usize::MAX,
                    y + 7 <= usize::MAX,
                    glyph == font.shape(text@[i as int]),
                    before.len() == framebuffer.len,
                    mem@.len() == framebuffer.len,
                    mem@ == framebuffer.drawn(
                        before,
                        text_cells_before(
                            *font,
                            text@,
                            x as int,
                            y as int,
                            colour,
                            i as int,
                            c as int,
                            r as int,
                        ),
                    ),
                decreases 7 - r,
            {
                let ghost sofar = text_cells_before(
                    *font,
                    text@,
                    x as int,
                    y as int,
                    colour,
                    i as int,
                    c as int,
                    r as int,
                );
                let ghost next = text_cells_before(
                    *font,
                    text@,
                    x as int,
                    y as int,
                    colour,
                    i as int,
                    c as int,
                    r + 1,
                );
                if is_lit(glyph[c], r) {
                    framebuffer.set_pixel(mem, cursor + c, y + r, colour);
                    proof {
                        let one = framebuffer::dot(cursor + c, y + r, colour);
                        framebuffer::lemma_drawn_over(*framebuffer, before, sofar, one);
                        framebuffer::lemma_drawn_same(
                            *framebuffer,
                            before,
                            framebuffer::over(sofar, one),
                            next,
                        );
                    }
                } else {
                    proof {
                        framebuffer::lemma_drawn_same(*framebuffer, before, sofar, next);
                    }
                }
                r += 1;
            }
            proof {
                framebuffer::lemma_drawn_same(
                    *framebuffer,
                    before,
                    text_cells_before(
                        *font,
                        text@,
                        x as int,
                        y as int,
                        colour,
                        i as int,
                        c as int,
                        7,
                    ),
                    text_cells_before(
                        *font,
                        text@,
                        x as int,
                        y as int,
                        colour,
                        i as int,
                        c + 1,
                        0,
                    ),
                );
            }
            c += 1;
        }
        proof {
            framebuffer::lemma_drawn_same(
                *framebuffer,
                before,
                text_cells_before(*font, text@, x as int, y as int, colour, i as int, 5, 0),
                text_cells_before(*font, text@, x as int, y as int, colour, i + 1, 0, 0),
            );
        }
        i += 1;
    }
}

/// The colour of a surface's pixel.
pub open spec fn pixel_colour(pixel: u32) -> Colour {
    Colour {
        r: (pixel / 0x1_0000 % 0x100) as u8,
        g: (pixel / 0x100 % 0x100) as u8,
        b: (pixel % 0x100) as u8,
    }
}

/// Where a surface ends on a screen: at its own right edge, or the screen's.
pub open spec fn right_edge(s: SurfaceView, fb: Framebuffer) -> int {
    least(s.x + s.width, fb.width as int)
}

/// Where a surface ends on a screen: at its own lower edge, or the content
/// region's.
pub open spec fn lower_edge(s: SurfaceView, fb: Framebuffer) -> int {
    least(s.y + s.height, TRUST_BAR_HEIGHT + content_height(fb))
}

/// A surface's own pixels, as far as the screen reaches and as far as the
/// ones that come before column `c` of row `r` of the screen.
pub open spec fn contents_before(s: SurfaceView, fb: Framebuffer, r: int, c: int) -> Cells {
    |x: int, y: int|
        if s.x <= x < right_edge(s, fb) && s.y <= y < lower_edge(s, fb) && (y < r || (y == r && x
            < c)) {
            Some(pixel_colour(s.pixels[(y - s.y) * s.width + (x - s.x)]))
        } else {
            None
        }
}

/// What a surface shows: its pixels, and the border of a window, around
/// what of it is on the screen.
pub open spec fn surface_cells(s: SurfaceView, fb: Framebuffer, theme: Theme) -> Cells {
    let own = contents_before(s, fb, lower_edge(s, fb), 0);
    if s.mode == SurfaceMode::Windowed {
        framebuffer::over(
            own,
            framebuffer::outline(
                s.x as int,
                s.y as int,
                right_edge(s, fb),
                lower_edge(s, fb),
                theme.accent(s.realm_kind),
            ),
        )
    } else {
        own
    }
}

/// What the first `n` surfaces show, the later ones on top.
pub open spec fn surfaces_cells(
    surfaces: Seq<SurfaceView>,
    fb: Framebuffer,
    theme: Theme,
    n: nat,
) -> Cells
    decreases n,
{
    if n == 0 {
        framebuffer::nothing()
    } else {
        framebuffer::over(
            surfaces_cells(surfaces, fb, theme, (n - 1) as nat),
            surface_cells(surfaces[n - 1], fb, theme),
        )
    }
}

/// The pointer: a wedge with an outline.
pub open spec fn pointer_cells(x: int, y: int, theme: Theme) -> Cells {
    pointer_cells_before(x, y, theme, 12, 0)
}

/// The pointer, as far as the cells that come before column `c` of its row
/// `r`.
pub open spec fn pointer_cells_before(x: int, y: int, theme: Theme, r: int, c: int) -> Cells {
    |px: int, py: int|
        {
            let row = py - y;
            let column = px - x;
            if 0 <= row < 12 && 0 <= column < 12 - row && column <= row + 6 && (row < r || (row == r
                && column < c)) {
                if column == 0 || column == 11 - row || row == 11 {
                    Some(theme.pointer_edge)
                } else {
                    Some(theme.pointer_fill)
                }
            } else {
                None
            }
        }
}

/// What the strip calls a Realm.
pub open spec fn label_of(kind: u64) -> &'static str {
    if kind == realm_kind::GAMING {
        "GAMING REALM"
    } else if kind == realm_kind::VAULT {
        "VAULT REALM - VERIFIED PUBLISHER"
    } else if kind == realm_kind::SYSTEM {
        "SYSTEM"
    } else {
        "HOME REALM"
    }
}

fn realm_label(kind: u64) -> (label: &'static str)
    ensures
        label == label_of(kind),
        label@.len() < 40,
{
    proof {
        reveal_strlit("GAMING REALM");
        reveal_strlit("VAULT REALM - VERIFIED PUBLISHER");
        reveal_strlit("SYSTEM");
        reveal_strlit("HOME REALM");
    }
    if kind == realm_kind::GAMING {
        "GAMING REALM"
    } else if kind == realm_kind::VAULT {
        "VAULT REALM - VERIFIED PUBLISHER"
    } else if kind == realm_kind::SYSTEM {
        "SYSTEM"
    } else {
        "HOME REALM"
    }
}

/// The first `n` blocks of the signature.
pub open spec fn signature_cells(signature: Seq<Colour>, x: int, n: nat) -> Cells
    decreases n,
{
    if n == 0 {
        framebuffer::nothing()
    } else {
        let left = x + 13 * (n - 1);
        framebuffer::over(
            signature_cells(signature, x, (n - 1) as nat),
            framebuffer::block(left, 5, left + 10, 15, signature[n - 1]),
        )
    }
}

/// What the strip says: the focused Realm's name, or the system's.
pub open spec fn bar_label(focused_realm: Option<u64>) -> &'static str {
    match focused_realm {
        Some(kind) => label_of(kind),
        None => "NAJM OS",
    }
}

/// The colour of the strip's swatch.
pub open spec fn bar_accent(focused_realm: Option<u64>, theme: Theme) -> Colour {
    match focused_realm {
        Some(kind) => theme.accent(kind),
        None => theme.trust_bar_text,
    }
}

/// The strip: its background, the line below it, the swatch and the label,
/// and the boot signature at the right. There is nothing in it that a
/// process supplies.
pub open spec fn bar_cells(
    fb: Framebuffer,
    font: Font,
    theme: Theme,
    focused_realm: Option<u64>,
    signature: Seq<Colour>,
) -> Cells {
    let ground = framebuffer::block(
        0,
        0,
        fb.width as int,
        TRUST_BAR_HEIGHT as int,
        theme.trust_bar,
    );
    let edge = framebuffer::block(
        0,
        TRUST_BAR_HEIGHT - 1,
        fb.width as int,
        TRUST_BAR_HEIGHT as int,
        theme.trust_bar_edge,
    );
    let swatch = framebuffer::block(6, 5, 16, 15, bar_accent(focused_realm, theme));
    let label = text_cells(font, bar_label(focused_realm)@, 22, 7, theme.trust_bar_text);
    let blocks = signature_cells(signature, signature_x(fb), signature.len());
    framebuffer::over(
        framebuffer::over(framebuffer::over(framebuffer::over(ground, edge), swatch), label),
        blocks,
    )
}

/// The Realm of the surface with the focus.
pub open spec fn focused_realm(v: CompositorView) -> Option<u64> {
    match v.focused {
        None => None,
        Some(id) => match surface_at(v.surfaces, id, 0) {
            Some(i) => Some(v.surfaces[i].realm_kind),
            None => None,
        },
    }
}

/// The content area behind the surfaces.
pub open spec fn desktop_cells(fb: Framebuffer, theme: Theme) -> Cells {
    framebuffer::block(
        0,
        TRUST_BAR_HEIGHT as int,
        fb.width as int,
        TRUST_BAR_HEIGHT + content_height(fb),
        theme.desktop,
    )
}

/// A whole frame: the desktop, the surfaces, the pointer, and over all of
/// it the strip.
pub open spec fn frame_cells(v: CompositorView, fb: Framebuffer, font: Font, pointer: (u64, u64)) -> Cells {
    framebuffer::over(
        framebuffer::over(
            framebuffer::over(
                desktop_cells(fb, v.theme),
                surfaces_cells(v.surfaces, fb, v.theme, v.surfaces.len()),
            ),
            pointer_cells(pointer.0 as int, pointer.1 as int, v.theme),
        ),
        bar_cells(fb, font, v.theme, focused_realm(v), v.signature),
    )
}

/// Draws one surface, as far as the screen reaches.
#[verifier::rlimit(40)]
fn draw_surface(fb: &Framebuffer, mem: &mut [u8], surface: &Surface, theme: &Theme)
    requires
        fb.wf(),
        surface_is_sound(surface@),
        old(mem)@.len() == fb.len,
    ensures
        final(mem)@.len() == fb.len,
        final(mem)@ == fb.drawn(old(mem)@, surface_cells(surface@, *fb, *theme)),
{
    let ghost before = mem@;
    let ghost s = surface@;
    let (_, content_y, content_width, content_height) = content_region(fb);
    let x_start: usize = surface.x;
    let y_start: usize = surface.y;
    let mut x_end: usize = surface.x + surface.width;
    if content_width < x_end {
        x_end = content_width;
    }
    let mut y_end: usize = surface.y + surface.height;
    if content_y + content_height < y_end {
        y_end = content_y + content_height;
    }
    let mut row: usize = y_start;
    proof {
        framebuffer::lemma_drawn_nothing(*fb, before, contents_before(s, *fb, y_start as int, 0));
    }
    while row < y_end
        invariant
            fb.wf(),
            s == surface@,
            surface_is_sound(s),
            x_start == s.x,
            y_start == s.y,
            x_end == right_edge(s, *fb),
            y_end == lower_edge(s, *fb),
            y_start <= row,
            before.len() == fb.len,
            mem@.len() == fb.len,
            mem@ == fb.drawn(before, contents_before(s, *fb, row as int, 0)),
        decreases y_end - row,
    {
        let mut column: usize = x_start;
        proof {
            framebuffer::lemma_drawn_same(
                *fb,
                before,
                contents_before(s, *fb, row as int, 0),
                contents_before(s, *fb, row as int, column as int),
            );
        }
        while column < x_end
            invariant
                fb.wf(),
                s == surface@,
                surface_is_sound(s),
                x_start == s.x,
                y_start == s.y,
                x_end == right_edge(s, *fb),
                y_end == lower_edge(s, *fb),
                y_start <= row < y_end,
                x_start <= column,
                before.len() == fb.len,
                mem@.len() == fb.len,
                mem@ == fb.drawn(before, contents_before(s, *fb, row as int, column as int)),
            decreases x_end - column,
        {
            let local_x: usize = column - surface.x;
            let local_y: usize = row - surface.y;
            proof {
                lemma_pixel_index(
                    s.width as int,
                    s.height as int,
                    local_x as int,
                    local_y as int,
                );
            }
            let pixel: u32 = surface.pixels[local_y * surface.width + local_x];
            let colour = Colour::rgb(
                (pixel / 0x1_0000 % 0x100) as u8,
                (pixel / 0x100 % 0x100) as u8,
                (pixel % 0x100) as u8,
            );
            fb.set_pixel(mem, column, row, colour);
            proof {
                let sofar = contents_before(s, *fb, row as int, column as int);
                let one = framebuffer::dot(column as int, row as int, colour);
                framebuffer::lemma_drawn_over(*fb, before, sofar, one);
                framebuffer::lemma_drawn_same(
                    *fb,
                    before,
                    framebuffer::over(sofar, one),
                    contents_before(s, *fb, row as int, column + 1),
                );
            }
            column += 1;
        }
        proof {
            framebuffer::lemma_drawn_same(
                *fb,
                before,
                contents_before(s, *fb, row as int, column as int),
                contents_before(s, *fb, row + 1, 0),
            );
        }
        row += 1;
    }
    let ghost own = contents_before(s, *fb, lower_edge(s, *fb), 0);
    proof {
        framebuffer::lemma_drawn_same(*fb, before, contents_before(s, *fb, row as int, 0), own);
    }
    if surface.mode == SurfaceMode::Windowed {
        let accent = theme.accent_for_realm(surface.realm_kind);
        let ghost border = framebuffer::outline(
            s.x as int,
            s.y as int,
            right_edge(s, *fb),
            lower_edge(s, *fb),
            accent,
        );
        if x_end > x_start && y_end > y_start {
            fb.stroke_rect(mem, x_start, y_start, x_end - x_start, y_end - y_start, accent);
            proof {
                framebuffer::lemma_drawn_over(*fb, before, own, border);
            }
        } else {
            proof {
                framebuffer::lemma_drawn_same(*fb, before, own, framebuffer::over(own, border));
            }
        }
    }
}

proof fn lemma_pixel_index(width: int, height: int, x: int, y: int)
    requires
        0 <= x < width,
        0 <= y < height,
        width * height <= MAX_SURFACE_PIXELS,
    ensures
        0 <= y * width + x < width * height,
        y * width <= MAX_SURFACE_PIXELS,
{
    assert(y * width + width <= height * width) by (nonlinear_arith)
        requires
            y + 1 <= height,
            0 < width,
    ;
    assert(height * width == width * height) by (nonlinear_arith);
    assert(0 <= y * width) by (nonlinear_arith)
        requires
            0 <= y,
            0 < width,
    ;
}

/// Draws the pointer.
#[verifier::rlimit(40)]
fn draw_pointer(fb: &Framebuffer, mem: &mut [u8], theme: &Theme, position: (u64, u64))
    requires
        fb.wf(),
        old(mem)@.len() == fb.len,
    ensures
        final(mem)@.len() == fb.len,
        final(mem)@ == fb.drawn(
            old(mem)@,
            pointer_cells(position.0 as int, position.1 as int, *theme),
        ),
{
    let ghost before = mem@;
    let ghost px = position.0 as int;
    let ghost py = position.1 as int;
    // Off the screen there is nothing to draw.
    if position.0 >= fb.width as u64 || position.1 >= fb.height as u64 {
        proof {
            framebuffer::lemma_drawn_nothing(*fb, before, pointer_cells(px, py, *theme));
        }
        return;
    }
    let x: usize = position.0 as usize;
    let y: usize = position.1 as usize;
    let mut row: usize = 0;
    proof {
        framebuffer::lemma_drawn_nothing(*fb, before, pointer_cells_before(px, py, *theme, 0, 0));
    }
    while row < 12
        invariant
            fb.wf(),
            px == x,
            py == y,
            row <= 12,
            before.len() == fb.len,
            mem@.len() == fb.len,
            mem@ == fb.drawn(before, pointer_cells_before(px, py, *theme, row as int, 0)),
        decreases 12 - row,
    {
        let mut column: usize = 0;
        while column < 12 - row
            invariant
                fb.wf(),
                px == x,
                py == y,
                row < 12,
                column <= 12 - row,
                before.len() == fb.len,
                mem@.len() == fb.len,
                mem@ == fb.drawn(
                    before,
                    pointer_cells_before(px, py, *theme, row as int, column as int),
                ),
            decreases 12 - row - column,
        {
            let ghost sofar = pointer_cells_before(px, py, *theme, row as int, column as int);
            let ghost next = pointer_cells_before(px, py, *theme, row as int, column + 1);
            if column <= row + 6 {
                let edge: bool = column == 0 || column == 11 - row || row == 11;
                let colour: Colour = if edge {
                    theme.pointer_edge
                } else {
                    theme.pointer_fill
                };
                let at_x: usize = x.saturating_add(column);
                let at_y: usize = y.saturating_add(row);
                fb.set_pixel(mem, at_x, at_y, colour);
                proof {
                    let one = framebuffer::dot(at_x as int, at_y as int, colour);
                    framebuffer::lemma_drawn_over(*fb, before, sofar, one);
                    framebuffer::lemma_drawn_same(
                        *fb,
                        before,
                        framebuffer::over(sofar, one),
                        next,
                    );
                }
            } else {
                proof {
                    framebuffer::lemma_drawn_same(*fb, before, sofar, next);
                }
            }
            column += 1;
        }
        proof {
            framebuffer::lemma_drawn_same(
                *fb,
                before,
                pointer_cells_before(px, py, *theme, row as int, column as int),
                pointer_cells_before(px, py, *theme, row + 1, 0),
            );
        }
        row += 1;
    }
}

/// Draws the strip.
#[verifier::rlimit(40)]
fn draw_trust_bar(
    fb: &Framebuffer,
    mem: &mut [u8],
    font: &Font,
    theme: &Theme,
    focused_realm: Option<u64>,
    signature: &[Colour; 6],
)
    requires
        fb.wf(),
        old(mem)@.len() == fb.len,
    ensures
        final(mem)@.len() == fb.len,
        final(mem)@ == fb.drawn(
            old(mem)@,
            bar_cells(*fb, *font, *theme, focused_realm, signature@),
        ),
{
    let ghost before = mem@;
    fb.fill_rect(mem, 0, 0, fb.width, TRUST_BAR_HEIGHT, theme.trust_bar);
    fb.fill_rect(mem, 0, TRUST_BAR_HEIGHT - 1, fb.width, 1, theme.trust_bar_edge);
    proof {
        reveal_strlit("NAJM OS");
    }
    let label: &'static str = match focused_realm {
        Some(kind) => realm_label(kind),
        None => "NAJM OS",
    };
    let accent: Colour = match focused_realm {
        Some(kind) => theme.accent_for_realm(kind),
        None => theme.trust_bar_text,
    };
    fb.fill_rect(mem, 6, 5, 10, 10, accent);
    draw_text(fb, mem, font, 22, 7, label, theme.trust_bar_text);
    let ghost ground = framebuffer::block(
        0,
        0,
        fb.width as int,
        TRUST_BAR_HEIGHT as int,
        theme.trust_bar,
    );
    let ghost edge = framebuffer::block(
        0,
        TRUST_BAR_HEIGHT - 1,
        fb.width as int,
        TRUST_BAR_HEIGHT as int,
        theme.trust_bar_edge,
    );
    let ghost swatch = framebuffer::block(6, 5, 16, 15, accent);
    let ghost words = text_cells(*font, label@, 22, 7, theme.trust_bar_text);
    let ghost most = framebuffer::over(
        framebuffer::over(framebuffer::over(ground, edge), swatch),
        words,
    );
    let ghost x0 = signature_x(*fb);
    proof {
        framebuffer::lemma_drawn_over(*fb, before, ground, edge);
        framebuffer::lemma_drawn_over(*fb, before, framebuffer::over(ground, edge), swatch);
        framebuffer::lemma_drawn_over(
            *fb,
            before,
            framebuffer::over(framebuffer::over(ground, edge), swatch),
            words,
        );
        assert(mem@ == fb.drawn(before, most));
        framebuffer::lemma_drawn_same(
            *fb,
            before,
            most,
            framebuffer::over(most, signature_cells(signature@, x0, 0)),
        );
    }
    let mut x: usize = fb.width.saturating_sub(86);
    let mut i: usize = 0;
    while i < SIGNATURE_BLOCKS
        invariant
            fb.wf(),
            i <= SIGNATURE_BLOCKS,
            x0 == signature_x(*fb),
            x == x0 + 13 * i,
            before.len() == fb.len,
            mem@.len() == fb.len,
            mem@ == fb.drawn(
                before,
                framebuffer::over(most, signature_cells(signature@, x0, i as nat)),
            ),
        decreases SIGNATURE_BLOCKS - i,
    {
        let colour: Colour = signature[i];
        fb.fill_rect(mem, x, 5, 10, 10, colour);
        proof {
            let sofar = signature_cells(signature@, x0, i as nat);
            let one = framebuffer::block(x as int, 5, x + 10, 15, colour);
            framebuffer::lemma_drawn_over(*fb, before, framebuffer::over(most, sofar), one);
            framebuffer::lemma_drawn_same(
                *fb,
                before,
                framebuffer::over(framebuffer::over(most, sofar), one),
                framebuffer::over(most, signature_cells(signature@, x0, (i + 1) as nat)),
            );
        }
        x += 13;
        i += 1;
    }
}

/// What a frame needs beyond the compositor's own state: the mapped
/// framebuffer has the length that was reported for it.
pub open spec fn can_present(v: CompositorView, mem: Seq<u8>) -> bool {
    &&& compositor_is_regular(v)
    &&& v.frames < u64::MAX
    &&& v.framebuffer matches Some(fb) ==> mem.len() == fb.len
}

/// The state and the screen after one frame, drawn at tick `now`.
pub open spec fn presented(
    v: CompositorView,
    screen: Seq<u8>,
    font: Font,
    pointer: (u64, u64),
    now: u64,
) -> (CompositorView, Seq<u8>) {
    match v.framebuffer {
        None => (v, screen),
        Some(fb) => (
            CompositorView { frames: (v.frames + 1) as u64, last_present_tick: now, ..v },
            fb.drawn(screen, frame_cells(v, fb, font, pointer)),
        ),
    }
}

/// The state and the screen after a frame for a commit at tick `now`:
/// nothing changes where this tick has its frame already.
pub open spec fn presented_throttled(
    v: CompositorView,
    screen: Seq<u8>,
    font: Font,
    pointer: (u64, u64),
    now: u64,
) -> (CompositorView, Seq<u8>) {
    if v.frames > 0 && v.last_present_tick == now {
        (v, screen)
    } else {
        presented(CompositorView { last_present_tick: now, ..v }, screen, font, pointer, now)
    }
}

/// Draws one frame: the desktop, every surface, the pointer, then the
/// strip, over everything else. Without a screen there is nothing to do.
#[verifier::rlimit(40)]
pub fn present(
    compositor: &mut Compositor,
    mem: &mut [u8],
    font: &Font,
    pointer: (u64, u64),
    now: u64,
)
    requires
        can_present(old(compositor)@, old(mem)@),
    ensures
        final(compositor).wf(),
        (final(compositor)@, final(mem)@) == presented(
            old(compositor)@,
            old(mem)@,
            *font,
            pointer,
            now,
        ),
{
    let ghost v = compositor@;
    let ghost before = mem@;
    let fb: Framebuffer = match compositor.framebuffer {
        Some(fb) => fb,
        None => {
            return;
        },
    };
    let theme: Theme = compositor.theme;
    let (_, content_y, content_width, content_height) = content_region(&fb);
    fb.fill_rect(mem, 0, content_y, content_width, content_height, theme.desktop);
    let ghost desktop = desktop_cells(fb, theme);
    let mut i: usize = 0;
    proof {
        framebuffer::lemma_drawn_same(
            fb,
            before,
            desktop,
            framebuffer::over(desktop, surfaces_cells(v.surfaces, fb, theme, 0)),
        );
    }
    while i < compositor.surfaces.len()
        invariant
            compositor@ == v,
            compositor_is_regular(v),
            v.framebuffer == Some(fb),
            fb.wf(),
            v.surfaces.len() == compositor.surfaces.len(),
            i <= compositor.surfaces.len(),
            before.len() == fb.len,
            mem@.len() == fb.len,
            mem@ == fb.drawn(
                before,
                framebuffer::over(desktop, surfaces_cells(v.surfaces, fb, theme, i as nat)),
            ),
        decreases compositor.surfaces.len() - i,
    {
        assert(surface_is_sound(v.surfaces[i as int]));
        draw_surface(&fb, mem, &compositor.surfaces[i], &theme);
        proof {
            let sofar = surfaces_cells(v.surfaces, fb, theme, i as nat);
            let one = surface_cells(v.surfaces[i as int], fb, theme);
            framebuffer::lemma_drawn_over(fb, before, framebuffer::over(desktop, sofar), one);
            framebuffer::lemma_drawn_same(
                fb,
                before,
                framebuffer::over(framebuffer::over(desktop, sofar), one),
                framebuffer::over(desktop, surfaces_cells(v.surfaces, fb, theme, (i + 1) as nat)),
            );
        }
        i += 1;
    }
    let ghost windows = framebuffer::over(
        desktop,
        surfaces_cells(v.surfaces, fb, theme, v.surfaces.len()),
    );
    draw_pointer(&fb, mem, &theme, pointer);
    let ghost arrow = pointer_cells(pointer.0 as int, pointer.1 as int, theme);
    proof {
        framebuffer::lemma_drawn_over(fb, before, windows, arrow);
    }
    let realm: Option<u64> = match compositor.focused {
        None => None,
        Some(id) => match compositor.find(id) {
            Some(k) => Some(compositor.surfaces[k].realm_kind),
            None => None,
        },
    };
    let signature: [Colour; 6] = compositor.signature;
    draw_trust_bar(&fb, mem, font, &theme, realm, &signature);
    proof {
        let bar = bar_cells(fb, *font, theme, focused_realm(v), v.signature);
        framebuffer::lemma_drawn_over(fb, before, framebuffer::over(windows, arrow), bar);
    }
    compositor.frames += 1;
    compositor.last_present_tick = now;
    assert(compositor@.surfaces =~= v.surfaces);
}

/// Draws a frame for a commit, if none has been drawn this tick: the
/// display could not show a second one.
pub fn present_throttled(
    compositor: &mut Compositor,
    mem: &mut [u8],
    font: &Font,
    pointer: (u64, u64),
    now: u64,
)
    requires
        can_present(old(compositor)@, old(mem)@),
    ensures
        final(compositor).wf(),
        (final(compositor)@, final(mem)@) == presented_throttled(
            old(compositor)@,
            old(mem)@,
            *font,
            pointer,
            now,
        ),
{
    let ghost v = compositor@;
    if compositor.frames > 0 && compositor.last_present_tick == now {
        return;
    }
    compositor.last_present_tick = now;
    assert(compositor@.surfaces =~= v.surfaces);
    assert(focused_realm(compositor@) == focused_realm(v));
    present(compositor, mem, font, pointer, now);
}

// ---------------------------------------------------------------------
// Laws
// ---------------------------------------------------------------------

/// No surface can put a pixel into the strip, in any mode: there is no
/// position in it that any surface has a cell for.
pub proof fn law_surfaces_stay_out_of_the_strip(
    v: CompositorView,
    fb: Framebuffer,
    n: nat,
    x: int,
    y: int,
)
    requires
        compositor_is_regular(v),
        n <= v.surfaces.len(),
        y < TRUST_BAR_HEIGHT,
    ensures
        surfaces_cells(v.surfaces, fb, v.theme, n)(x, y) is None,
    decreases n,
{
    if n > 0 {
        law_surfaces_stay_out_of_the_strip(v, fb, (n - 1) as nat, x, y);
        assert(surface_is_sound(v.surfaces[n - 1]));
    }
}

/// The whole strip is drawn in every frame, and what it shows is decided
/// by the kernel's state alone: whatever the surfaces hold, wherever the
/// pointer is and whatever was on the screen before, a position in the
/// strip gets the colour that the theme, the focused Realm and the boot
/// signature give it.
pub proof fn law_strip_shows_kernel_state(
    v: CompositorView,
    fb: Framebuffer,
    font: Font,
    pointer: (u64, u64),
    x: int,
    y: int,
)
    requires
        0 <= x < fb.width,
        0 <= y < TRUST_BAR_HEIGHT,
    ensures
        frame_cells(v, fb, font, pointer)(x, y) == bar_cells(
            fb,
            font,
            v.theme,
            focused_realm(v),
            v.signature,
        )(x, y),
        frame_cells(v, fb, font, pointer)(x, y) is Some,
{
}

/// Two frames with the same theme, signature and focused Realm show the
/// same strip, whatever the processes drew.
pub proof fn law_strip_cannot_be_forged(
    a: CompositorView,
    b: CompositorView,
    fb: Framebuffer,
    font: Font,
    pointer_a: (u64, u64),
    pointer_b: (u64, u64),
    mem_a: Seq<u8>,
    mem_b: Seq<u8>,
    x: int,
    y: int,
)
    requires
        fb.wf(),
        fb.bytes_per_pixel >= 3,
        fb.format == framebuffer::PixelFormat::Rgb || fb.format == framebuffer::PixelFormat::Bgr,
        mem_a.len() == fb.len,
        mem_b.len() == fb.len,
        a.theme == b.theme,
        a.signature == b.signature,
        focused_realm(a) == focused_realm(b),
        fb.visible(x, y),
        y < TRUST_BAR_HEIGHT,
    ensures
        fb.shown(fb.drawn(mem_a, frame_cells(a, fb, font, pointer_a)), x, y) == fb.shown(
            fb.drawn(mem_b, frame_cells(b, fb, font, pointer_b)),
            x,
            y,
        ),
{
    framebuffer::law_drawn_is_shown(fb, mem_a, frame_cells(a, fb, font, pointer_a), x, y);
    framebuffer::law_drawn_is_shown(fb, mem_b, frame_cells(b, fb, font, pointer_b), x, y);
}

/// The same of the bytes of the screen, in whatever way it stores pixels:
/// two frames drawn over the same screen, with the same theme, signature
/// and focused Realm, leave the same bytes in every row of the strip.
pub proof fn law_strip_bytes_cannot_be_forged(
    a: CompositorView,
    b: CompositorView,
    fb: Framebuffer,
    font: Font,
    pointer_a: (u64, u64),
    pointer_b: (u64, u64),
    mem: Seq<u8>,
    i: int,
)
    requires
        fb.wf(),
        a.theme == b.theme,
        a.signature == b.signature,
        focused_realm(a) == focused_realm(b),
        0 <= i < mem.len(),
        i / (fb.stride as int) < TRUST_BAR_HEIGHT,
    ensures
        fb.drawn(mem, frame_cells(a, fb, font, pointer_a))[i] == fb.drawn(
            mem,
            frame_cells(b, fb, font, pointer_b),
        )[i],
{
    reveal(Framebuffer::drawn);
    let y = i / fb.stride as int;
    let x = i % fb.stride as int / fb.bytes_per_pixel as int;
    if fb.visible(x, y) {
        law_strip_shows_kernel_state(a, fb, font, pointer_a, x, y);
        law_strip_shows_kernel_state(b, fb, font, pointer_b, x, y);
    }
}

/// A tick has at most one frame from commits, and none where it had one
/// already: once a frame was drawn, by either function, a commit in the same
/// tick leaves the screen, the count of frames and everything else as they
/// are.
pub proof fn law_one_frame_per_tick(
    v: CompositorView,
    screen: Seq<u8>,
    font: Font,
    pointer: (u64, u64),
    later: (u64, u64),
    now: u64,
)
    requires
        can_present(v, screen),
        v.framebuffer is Some,
    ensures
        ({
            let (after, shown) = presented(v, screen, font, pointer, now);
            &&& after.frames == v.frames + 1
            &&& presented_throttled(after, shown, font, later, now) == (after, shown)
        }),
        ({
            let (after, shown) = presented_throttled(v, screen, font, pointer, now);
            presented_throttled(after, shown, font, later, now) == (after, shown)
        }),
{
}

/// Every block of the signature is displayed where
/// `signature_block_origin` says, in every frame.
pub proof fn law_signature_is_displayed(
    v: CompositorView,
    fb: Framebuffer,
    font: Font,
    pointer: (u64, u64),
    index: int,
)
    requires
        compositor_is_regular(v),
        0 <= index < SIGNATURE_BLOCKS,
    ensures
        frame_cells(v, fb, font, pointer)(signature_x(fb) + index * 13 + 5, 10) == Some(
            v.signature[index],
        ),
{
    lemma_signature_block(v.signature, signature_x(fb), v.signature.len(), index);
}

/// A theme only picks colours: whatever it says, the strip covers the same
/// pixels, the label has the same letters in the same place, and the boot
/// signature has its own colours.
pub proof fn law_theme_only_colours_the_strip(
    fb: Framebuffer,
    font: Font,
    a: Theme,
    b: Theme,
    realm: Option<u64>,
    signature: Seq<Colour>,
    x: int,
    y: int,
)
    ensures
        ({
            let with_a = bar_cells(fb, font, a, realm, signature)(x, y);
            let with_b = bar_cells(fb, font, b, realm, signature)(x, y);
            let label_a = text_cells(font, bar_label(realm)@, 22, 7, a.trust_bar_text)(x, y);
            let label_b = text_cells(font, bar_label(realm)@, 22, 7, b.trust_bar_text)(x, y);
            let blocks = signature_cells(signature, signature_x(fb), signature.len())(x, y);
            &&& with_a is Some <==> with_b is Some
            &&& label_a is Some <==> label_b is Some
            &&& blocks is Some ==> with_a == blocks && with_b == blocks
        }),
{
}

proof fn lemma_signature_block(signature: Seq<Colour>, x: int, n: nat, index: int)
    requires
        n <= signature.len(),
        0 <= index < n,
    ensures
        signature_cells(signature, x, n)(x + index * 13 + 5, 10) == Some(signature[index]),
    decreases n,
{
    if index < n - 1 {
        lemma_signature_block(signature, x, (n - 1) as nat, index);
    }
}

/// Every colour of a signature comes from the palette.
pub proof fn law_signature_is_from_the_palette(seed: u64, i: int)
    requires
        0 <= i < SIGNATURE_BLOCKS,
    ensures
        exists|k: int| 0 <= k < 8 && signature_from(seed)[i] == #[trigger] palette(k),
{
    let k = (scrambled_times(seed, (i + 1) as nat) % 8) as int;
    assert(0 <= k < 8 && signature_from(seed)[i] == palette(k));
}

/// Where surfaces go, for every size a program can ask for: in the content
/// region and nowhere else.
pub proof fn law_placement_is_in_the_content_region(
    fb: Framebuffer,
    index: int,
    width: int,
    height: int,
    mode: SurfaceMode,
)
    requires
        index >= 0,
        width >= 0,
        height >= 0,
    ensures
        ({
            let (x, y, w, h) = placement(fb, index, width, height, mode);
            &&& 0 <= x && x + w <= fb.width
            &&& TRUST_BAR_HEIGHT <= y && y + h <= TRUST_BAR_HEIGHT + content_height(fb)
        }),
{
}

/// After a process has ended, none of its surfaces is left, and everyone
/// else's are.
pub proof fn law_exit_removes_every_surface(surfaces: Seq<SurfaceView>, pid: u64, i: int)
    requires
        0 <= i < surfaces.len(),
    ensures
        surfaces[i].pid == pid ==> !surfaces_without(surfaces, pid).contains(surfaces[i]),
        surfaces[i].pid != pid ==> surfaces_without(surfaces, pid).contains(surfaces[i]),
    decreases surfaces.len(),
{
    lemma_surfaces_without(surfaces, pid);
    let front = surfaces.drop_last();
    let rest = surfaces_without(front, pid);
    let all = surfaces_without(surfaces, pid);
    if surfaces[i].pid != pid {
        if i < front.len() {
            law_exit_removes_every_surface(front, pid, i);
            let k = choose|k: int| 0 <= k < rest.len() && rest[k] == surfaces[i];
            assert(all[k] == surfaces[i]);
        } else {
            assert(all[all.len() - 1] == surfaces[i]);
        }
    }
}

/// Drawing a frame changes no surface.
pub proof fn lemma_presenting_keeps_surfaces(
    v: CompositorView,
    screen: Seq<u8>,
    font: Font,
    pointer: (u64, u64),
    now: u64,
)
    ensures
        presented_throttled(v, screen, font, pointer, now).0.surfaces == v.surfaces,
{
}

/// A surface can only be changed or measured by its owner: a frame that
/// another process commits leaves it as it was, whichever surface it is
/// meant for, and to that process it is as if the surface did not exist.
pub proof fn law_surfaces_are_private(
    v: CompositorView,
    memory: Seq<u8>,
    root: int,
    id: u64,
    pid: u64,
    ptr: u64,
    len: int,
    i: int,
)
    requires
        compositor_is_regular(v),
        0 <= i < v.surfaces.len(),
        v.surfaces[i].pid != pid,
    ensures
        committed(v, memory, root, id, pid, ptr, len).0.surfaces.len() == v.surfaces.len(),
        committed(v, memory, root, id, pid, ptr, len).0.surfaces[i] == v.surfaces[i],
        id == v.surfaces[i].id ==> {
            &&& !committed(v, memory, root, id, pid, ptr, len).1
            &&& geometry(v.surfaces, id, pid) is None
        },
{
    lemma_surface_at(v.surfaces, id, 0);
    if id == v.surfaces[i].id {
        let k = surface_at(v.surfaces, id, 0).unwrap();
        if k < i {
            assert(v.surfaces[k].id < v.surfaces[i].id);
        } else if i < k {
            assert(v.surfaces[i].id < v.surfaces[k].id);
        }
    }
}

/// The newest surface is on top: where a surface has a cell and none that is
/// newer has one, it is that surface's cell that is seen. Where none has a
/// cell, nothing of them is.
pub proof fn law_newest_surface_is_on_top(
    surfaces: Seq<SurfaceView>,
    fb: Framebuffer,
    theme: Theme,
    n: nat,
    i: int,
    x: int,
    y: int,
)
    requires
        n <= surfaces.len(),
    ensures
        0 <= i < n && surface_cells(surfaces[i], fb, theme)(x, y) is Some && (forall|j: int|
            i < j < n ==> surface_cells(#[trigger] surfaces[j], fb, theme)(x, y) is None)
            ==> surfaces_cells(surfaces, fb, theme, n)(x, y) == surface_cells(
            surfaces[i],
            fb,
            theme,
        )(x, y),
        (forall|j: int|
            0 <= j < n ==> surface_cells(#[trigger] surfaces[j], fb, theme)(x, y) is None)
            ==> surfaces_cells(surfaces, fb, theme, n)(x, y) is None,
    decreases n,
{
    if n > 0 {
        law_newest_surface_is_on_top(surfaces, fb, theme, (n - 1) as nat, i, x, y);
    }
}

/// Whether a position is in a surface and on the screen.
pub open spec fn is_inside(s: SurfaceView, fb: Framebuffer, x: int, y: int) -> bool {
    s.x <= x < s.x + s.width && x < fb.width && s.y <= y < s.y + s.height && y < fb.height
}

/// Whether a position of a window is at the edge of what of the window is on
/// the screen.
pub open spec fn is_at_edge(s: SurfaceView, fb: Framebuffer, x: int, y: int) -> bool {
    ||| x == s.x || x + 1 == s.x + s.width || x + 1 == fb.width
    ||| y == s.y || y + 1 == s.y + s.height || y + 1 == fb.height
}

/// A surface shows its own pixels, each at its place in the surface, row by
/// row, with eight bits for each of red, green and blue. A window's edge has
/// the accent of its Realm instead. Elsewhere a surface shows nothing.
pub proof fn law_surface_shows_its_pixels(
    s: SurfaceView,
    fb: Framebuffer,
    theme: Theme,
    x: int,
    y: int,
)
    requires
        surface_is_sound(s),
        0 <= x,
        0 <= y,
    ensures
        !is_inside(s, fb, x, y) ==> surface_cells(s, fb, theme)(x, y) is None,
        is_inside(s, fb, x, y) && s.mode == SurfaceMode::Windowed && is_at_edge(s, fb, x, y)
            ==> surface_cells(s, fb, theme)(x, y) == Some(
            if s.realm_kind == 1 {
                theme.accent_gaming
            } else if s.realm_kind == 2 {
                theme.accent_vault
            } else if s.realm_kind == 3 {
                theme.accent_system
            } else {
                theme.accent_home
            },
        ),
        is_inside(s, fb, x, y) && (s.mode == SurfaceMode::Fullscreen || !is_at_edge(s, fb, x, y))
            ==> {
            let pixel = s.pixels[(y - s.y) * s.width + (x - s.x)];
            &&& surface_cells(s, fb, theme)(x, y) matches Some(c)
            &&& pixel % 0x100_0000 == 0x1_0000 * c.r + 0x100 * c.g + c.b
        },
{
}

/// Whether a position is in the pointer's wedge, whose tip is at `pointer`.
pub open spec fn is_in_pointer(pointer: (u64, u64), x: int, y: int) -> bool {
    let right = x - pointer.0;
    let down = y - pointer.1;
    0 <= right && 0 <= down && right + down < 12 && right <= down + 6
}

/// What a frame shows below the strip. The pointer is over everything, with
/// its edge in one colour and the rest of it in another. Where the pointer is
/// not, the newest surface with a cell is seen, and where no surface has one
/// the desktop is.
pub proof fn law_frame_is_layered(
    v: CompositorView,
    fb: Framebuffer,
    font: Font,
    pointer: (u64, u64),
    i: int,
    x: int,
    y: int,
)
    requires
        compositor_is_regular(v),
        0 <= x < fb.width,
        20 <= y < fb.height,
    ensures
        is_in_pointer(pointer, x, y) ==> frame_cells(v, fb, font, pointer)(x, y) == Some(
            if x == pointer.0 || x - pointer.0 + y - pointer.1 == 11 {
                v.theme.pointer_edge
            } else {
                v.theme.pointer_fill
            },
        ),
        !is_in_pointer(pointer, x, y) && 0 <= i < v.surfaces.len() && surface_cells(
            v.surfaces[i],
            fb,
            v.theme,
        )(x, y) is Some && (forall|j: int|
            i < j < v.surfaces.len() ==> surface_cells(#[trigger] v.surfaces[j], fb, v.theme)(
                x,
                y,
            ) is None) ==> frame_cells(v, fb, font, pointer)(x, y) == surface_cells(
            v.surfaces[i],
            fb,
            v.theme,
        )(x, y),
        !is_in_pointer(pointer, x, y) && (forall|j: int|
            0 <= j < v.surfaces.len() ==> surface_cells(#[trigger] v.surfaces[j], fb, v.theme)(
                x,
                y,
            ) is None) ==> frame_cells(v, fb, font, pointer)(x, y) == Some(v.theme.desktop),
{
    law_newest_surface_is_on_top(v.surfaces, fb, v.theme, v.surfaces.len(), i, x, y);
    lemma_signature_rows(v.signature, signature_x(fb), v.signature.len(), x, y);
}

proof fn lemma_signature_rows(signature: Seq<Colour>, left: int, n: nat, x: int, y: int)
    ensures
        !(5 <= y < 15) || x < left ==> signature_cells(signature, left, n)(x, y) is None,
        0 <= x - left && (x - left) / 13 < n && (x - left) % 13 < 10 && 5 <= y < 15
            ==> signature_cells(signature, left, n)(x, y) == Some(signature[(x - left) / 13]),
        0 <= x - left && ((x - left) / 13 >= n || (x - left) % 13 >= 10) ==> signature_cells(
            signature,
            left,
            n,
        )(x, y) is None,
    decreases n,
{
    if n > 0 {
        lemma_signature_rows(signature, left, (n - 1) as nat, x, y);
    }
}

/// Whether a position belongs to block `k` of the signature: six blocks of
/// ten by ten pixels at the right, three pixels apart.
pub open spec fn is_in_block(fb: Framebuffer, k: int, x: int, y: int) -> bool {
    let left = (if fb.width >= 86 {
        fb.width - 86
    } else {
        0
    }) + 13 * k;
    0 <= k < 6 && left <= x < left + 10 && 5 <= y < 15
}

/// Whether a position belongs to a letter of a text that starts six pixels
/// to the right of the swatch: letters are five columns of seven rows, one
/// column apart, and bit `n` of a column is its row `n`.
pub open spec fn is_in_letter(font: Font, label: Seq<char>, k: int, x: int, y: int) -> bool {
    let column = x - 22 - 6 * k;
    let row = y - 7;
    &&& 0 <= k < label.len()
    &&& 0 <= column < 5
    &&& 0 <= row < 7
    &&& font::lit(font.shape(label[k])@[column], row)
}

/// What the strip shows: the signature's blocks in their own colours, then
/// the letters of the label, then the swatch in the accent of the Realm with
/// the focus, then the line in its last row, and its background elsewhere.
pub proof fn law_strip_is_laid_out(
    v: CompositorView,
    fb: Framebuffer,
    font: Font,
    pointer: (u64, u64),
    label: Seq<char>,
    k: int,
    x: int,
    y: int,
)
    requires
        compositor_is_regular(v),
        label == bar_label(focused_realm(v))@,
        0 <= x < fb.width,
        0 <= y < 20,
    ensures
        ({
            let shown = frame_cells(v, fb, font, pointer)(x, y);
            let in_signature = exists|b: int| is_in_block(fb, b, x, y);
            let in_label = exists|n: int| is_in_letter(font, label, n, x, y);
            &&& is_in_block(fb, k, x, y) ==> shown == Some(v.signature[k])
            &&& !in_signature && is_in_letter(font, label, k, x, y) ==> shown == Some(
                v.theme.trust_bar_text,
            )
            &&& !in_signature && !in_label && 6 <= x < 16 && 5 <= y < 15 ==> shown == Some(
                bar_accent(focused_realm(v), v.theme),
            )
            &&& !in_signature && !in_label && y == 19 ==> shown == Some(v.theme.trust_bar_edge)
            &&& !in_signature && !in_label && y < 19 && !(6 <= x < 16 && 5 <= y < 15) ==> shown
                == Some(v.theme.trust_bar)
        }),
{
    let left = signature_x(fb);
    lemma_signature_rows(v.signature, left, 6, x, y);
    let block = (x - left) / 13;
    if !(exists|b: int| is_in_block(fb, b, x, y)) {
        assert(!is_in_block(fb, block, x, y));
        assert(signature_cells(v.signature, left, 6)(x, y) is None);
    }
    if is_in_block(fb, k, x, y) {
        assert(block == k);
    }
    let n = (x - 22) / 6;
    if is_in_letter(font, label, k, x, y) {
        assert(n == k);
        assert((x - 22) % 6 == x - 22 - 6 * k);
    }
    if !(exists|n: int| is_in_letter(font, label, n, x, y)) {
        assert(!is_in_letter(font, label, n, x, y));
        assert(text_cells(font, label, 22, 7, v.theme.trust_bar_text)(x, y) is None);
    }
}

/// The strip names the Realm of the surface with the focus, and its swatch
/// has that Realm's accent. With no such surface it names the system.
pub proof fn law_strip_names_the_focused_realm(v: CompositorView, i: int)
    requires
        compositor_is_regular(v),
    ensures
        0 <= i < v.surfaces.len() && v.focused == Some(v.surfaces[i].id) ==> {
            let kind = v.surfaces[i].realm_kind;
            let label = bar_label(focused_realm(v))@;
            let accent = bar_accent(focused_realm(v), v.theme);
            &&& kind == 0 ==> label == "HOME REALM"@ && accent == v.theme.accent_home
            &&& kind == 1 ==> label == "GAMING REALM"@ && accent == v.theme.accent_gaming
            &&& kind == 2 ==> label == "VAULT REALM - VERIFIED PUBLISHER"@ && accent
                == v.theme.accent_vault
            &&& kind == 3 ==> label == "SYSTEM"@ && accent == v.theme.accent_system
        },
        v.focused is None || (forall|j: int|
            0 <= j < v.surfaces.len() ==> v.focused != Some((#[trigger] v.surfaces[j]).id)) ==> {
            &&& bar_label(focused_realm(v))@ == "NAJM OS"@
            &&& bar_accent(focused_realm(v), v.theme) == v.theme.trust_bar_text
        },
{
    if v.focused is Some {
        lemma_surface_at(v.surfaces, v.focused.unwrap(), 0);
        if 0 <= i < v.surfaces.len() && v.focused == Some(v.surfaces[i].id) {
            lemma_found(v, i);
        }
    }
}

proof fn lemma_found(v: CompositorView, i: int)
    requires
        compositor_is_regular(v),
        0 <= i < v.surfaces.len(),
    ensures
        surface_at(v.surfaces, v.surfaces[i].id, 0) == Some(i),
{
    lemma_surface_at(v.surfaces, v.surfaces[i].id, 0);
    let k = surface_at(v.surfaces, v.surfaces[i].id, 0).unwrap();
    if k < i {
        assert(v.surfaces[k].id < v.surfaces[i].id);
    } else if i < k {
        assert(v.surfaces[i].id < v.surfaces[k].id);
    }
}

/// A frame that is drawn is what the screen shows, at every pixel that it
/// has. It is counted, its tick is remembered, and nothing else changes.
/// Without a screen nothing does.
pub proof fn law_frame_is_shown(
    v: CompositorView,
    screen: Seq<u8>,
    font: Font,
    pointer: (u64, u64),
    now: u64,
    fb: Framebuffer,
    x: int,
    y: int,
)
    requires
        can_present(v, screen),
    ensures
        v.framebuffer is None ==> presented(v, screen, font, pointer, now) == (v, screen),
        v.framebuffer == Some(fb) ==> {
            let (after, shown) = presented(v, screen, font, pointer, now);
            &&& after.frames == v.frames + 1
            &&& after.last_present_tick == now
            &&& after.surfaces == v.surfaces
            &&& after.focused == v.focused
            &&& after.framebuffer == v.framebuffer
            &&& after.next_surface_id == v.next_surface_id
            &&& after.theme == v.theme
            &&& after.signature == v.signature
            &&& after.rejected_commits == v.rejected_commits
            &&& shown.len() == screen.len()
            &&& fb.visible(x, y) && fb.bytes_per_pixel >= 3 && (fb.format
                == framebuffer::PixelFormat::Rgb || fb.format == framebuffer::PixelFormat::Bgr)
                ==> fb.shown(shown, x, y) == (match frame_cells(v, fb, font, pointer)(x, y) {
                Some(c) => (c.r, c.g, c.b),
                None => fb.shown(screen, x, y),
            })
        },
        v.frames == 0 || v.last_present_tick != now ==> presented_throttled(
            v,
            screen,
            font,
            pointer,
            now,
        ).1 == presented(v, screen, font, pointer, now).1,
        v.framebuffer is Some && (v.frames == 0 || v.last_present_tick != now)
            ==> presented_throttled(v, screen, font, pointer, now) == presented(
            v,
            screen,
            font,
            pointer,
            now,
        ),
{
    reveal(Framebuffer::drawn);
    let marked = CompositorView { last_present_tick: now, ..v };
    assert(focused_realm(marked) == focused_realm(v));
    if v.framebuffer == Some(fb) {
        let frame = frame_cells(v, fb, font, pointer);
        if fb.visible(x, y) && fb.bytes_per_pixel >= 3 && (fb.format
            == framebuffer::PixelFormat::Rgb || fb.format == framebuffer::PixelFormat::Bgr) {
            framebuffer::law_drawn_is_shown(fb, screen, frame, x, y);
        }
    }
}

/// A surface that is created has the size that was asked for, as far as the
/// screen below the strip has room, and a new identifier. It is blank, on top
/// of the others, and has the focus. Windows are placed one after another,
/// each 30 pixels further right and 26 further down. Only an empty surface,
/// one of more than eight times 1024 times 1024 pixels, and one without a
/// screen are refused, and then nothing changes.
pub proof fn law_surface_is_created(
    v: CompositorView,
    fb: Framebuffer,
    pid: u64,
    realm_kind: u64,
    title: Seq<char>,
    width: usize,
    height: usize,
    mode: SurfaceMode,
)
    requires
        compositor_is_regular(v),
        v.next_surface_id < u64::MAX,
    ensures
        v.framebuffer is None ==> created(
            v,
            pid,
            realm_kind,
            title,
            width as int,
            height as int,
            mode,
        ) == (v, None::<u64>),
        v.framebuffer == Some(fb) ==> {
            let (after, id) = created(v, pid, realm_kind, title, width as int, height as int, mode);
            let room = if fb.height >= 20 {
                fb.height - 20
            } else {
                0
            };
            let w = if mode == SurfaceMode::Windowed && width < fb.width {
                width as int
            } else {
                fb.width as int
            };
            let h = if mode == SurfaceMode::Windowed && height < room {
                height as int
            } else {
                room
            };
            let count = v.surfaces.len() as int;
            &&& id is Some <==> w > 0 && h > 0 && w * h <= 8388608
            &&& id is None ==> after == v
            &&& id is Some ==> {
                let new = after.surfaces[count];
                &&& id == Some(v.next_surface_id)
                &&& after.next_surface_id == v.next_surface_id + 1
                &&& after.focused == id
                &&& after.surfaces.len() == count + 1
                &&& forall|i: int| 0 <= i < count ==> #[trigger] after.surfaces[i] == v.surfaces[i]
                &&& after.frames == v.frames
                &&& after.rejected_commits == v.rejected_commits
                &&& new.id == v.next_surface_id
                &&& new.pid == pid
                &&& new.realm_kind == realm_kind
                &&& new.title == title
                &&& new.mode == mode
                &&& new.width == w
                &&& new.height == h
                &&& new.pixels.len() == w * h
                &&& forall|i: int| 0 <= i < w * h ==> #[trigger] new.pixels[i] == 0
                &&& mode == SurfaceMode::Fullscreen ==> new.x == 0 && new.y == 20
                &&& mode == SurfaceMode::Windowed ==> {
                    &&& 40 + 30 * count + w <= fb.width ==> new.x == 40 + 30 * count
                    &&& 40 + 30 * count + w > fb.width ==> new.x + w == fb.width
                    &&& 50 + 26 * count + h <= fb.height ==> new.y == 50 + 26 * count
                    &&& 50 + 26 * count + h > fb.height ==> new.y + h == fb.height
                }
            }
        },
{
}

/// A frame is accepted exactly from the owner of the surface, where it has
/// four bytes for every pixel and the program can read all of them. Then each
/// pixel is its four bytes, the lowest first, and no other surface changes.
/// A frame for a surface that is there and is not accepted is counted, and
/// nothing else changes; one for no surface changes nothing at all.
pub proof fn law_commit_replaces_the_pixels(
    v: CompositorView,
    mem: Seq<u8>,
    root: int,
    i: int,
    pid: u64,
    ptr: u64,
    len: int,
    k: int,
)
    requires
        compositor_is_regular(v),
        v.rejected_commits < u64::MAX,
        root >= 0,
        0 <= i < v.surfaces.len(),
        0 <= len <= u64::MAX,
    ensures
        ({
            let id = v.surfaces[i].id;
            let (after, accepted) = committed(v, mem, root, id, pid, ptr, len);
            let bytes = memory::user_bytes(mem, root, ptr, len as u64);
            &&& accepted <==> v.surfaces[i].pid == pid && len == v.surfaces[i].width
                * v.surfaces[i].height * 4 && bytes is Some
            &&& !accepted ==> after.rejected_commits == v.rejected_commits + 1 && after.surfaces
                == v.surfaces && after.focused == v.focused && after.frames == v.frames
            &&& accepted ==> {
                let b = bytes.unwrap();
                &&& after.rejected_commits == v.rejected_commits
                &&& after.focused == v.focused
                &&& after.surfaces.len() == v.surfaces.len()
                &&& 0 <= k < v.surfaces.len() && k != i ==> after.surfaces[k] == v.surfaces[k]
                &&& after.surfaces[i].id == id && after.surfaces[i].pid == pid
                &&& after.surfaces[i].x == v.surfaces[i].x && after.surfaces[i].y
                    == v.surfaces[i].y
                &&& after.surfaces[i].width == v.surfaces[i].width && after.surfaces[i].height
                    == v.surfaces[i].height
                &&& after.surfaces[i].realm_kind == v.surfaces[i].realm_kind
                &&& after.surfaces[i].mode == v.surfaces[i].mode
                &&& after.surfaces[i].pixels.len() == v.surfaces[i].pixels.len()
                &&& 0 <= k < v.surfaces[i].pixels.len() ==> after.surfaces[i].pixels[k] == b[4 * k]
                    + 0x100 * b[4 * k + 1] + 0x1_0000 * b[4 * k + 2] + 0x100_0000 * b[4 * k + 3]
            }
        }),
        forall|id: u64|
            (forall|j: int|
                0 <= j < v.surfaces.len() ==> (#[trigger] v.surfaces[j]).id != id)
                ==> #[trigger] committed(v, mem, root, id, pid, ptr, len) == (v, false),
{
    lemma_found(v, i);
    assert(surface_is_sound(v.surfaces[i]));
    memory::lemma_user_bytes_len(mem, root, ptr, len as u64);
    assert forall|id: u64|
        (forall|j: int| 0 <= j < v.surfaces.len() ==> (#[trigger] v.surfaces[j]).id != id) implies
        #[trigger] committed(v, mem, root, id, pid, ptr, len) == (v, false) by {
        lemma_surface_at(v.surfaces, id, 0);
    }
}

/// The owner of a surface learns its size.
pub proof fn law_owner_learns_the_size(v: CompositorView, i: int)
    requires
        compositor_is_regular(v),
        0 <= i < v.surfaces.len(),
    ensures
        geometry(v.surfaces, v.surfaces[i].id, v.surfaces[i].pid) == Some(
            (v.surfaces[i].width, v.surfaces[i].height),
        ),
{
    lemma_found(v, i);
}

/// Surfaces go one by one: removing a process's surfaces from two rows of
/// surfaces leaves what is left of each, in order. A surface of the process
/// leaves nothing and any other is left as it is.
pub proof fn law_surfaces_are_removed_one_by_one(
    a: Seq<SurfaceView>,
    b: Seq<SurfaceView>,
    s: SurfaceView,
    pid: u64,
)
    ensures
        surfaces_without(a + b, pid) == surfaces_without(a, pid) + surfaces_without(b, pid),
        s.pid == pid ==> surfaces_without(seq![s], pid) == Seq::<SurfaceView>::empty(),
        s.pid != pid ==> surfaces_without(seq![s], pid) == seq![s],
    decreases b.len(),
{
    reveal_with_fuel(surfaces_without, 2);
    assert(seq![s].drop_last() =~= Seq::<SurfaceView>::empty());
    if b.len() == 0 {
        assert(a + b =~= a);
        assert(surfaces_without(b, pid) =~= Seq::<SurfaceView>::empty());
        assert(surfaces_without(a, pid) + surfaces_without(b, pid) =~= surfaces_without(a, pid));
    } else {
        law_surfaces_are_removed_one_by_one(a, b.drop_last(), s, pid);
        assert((a + b).drop_last() =~= a + b.drop_last());
        assert((a + b).last() == b.last());
        assert(surfaces_without(a + b, pid) =~= surfaces_without(a, pid) + surfaces_without(
            b,
            pid,
        ));
    }
}

/// The focus stays with its surface as long as there is one, and otherwise
/// goes to the newest that is left. Where none had it, none gets it.
pub proof fn law_focus_goes_to_the_newest(surfaces: Seq<SurfaceView>, id: u64, i: int)
    ensures
        refocused(surfaces, None) is None,
        0 <= i < surfaces.len() && surfaces[i].id == id ==> refocused(surfaces, Some(id)) == Some(
            id,
        ),
        (forall|j: int| 0 <= j < surfaces.len() ==> (#[trigger] surfaces[j]).id != id) ==> {
            &&& surfaces.len() > 0 ==> refocused(surfaces, Some(id)) == Some(
                surfaces[surfaces.len() - 1].id,
            )
            &&& surfaces.len() == 0 ==> refocused(surfaces, Some(id)) is None
        },
{
    lemma_surface_at(surfaces, id, 0);
}

/// The colours of the palette can be told apart.
pub proof fn law_palette_has_eight_colours(i: int, j: int)
    requires
        0 <= i < j < 8,
    ensures
        palette(i) != palette(j),
{
}

/// Each block of a signature comes from the seed by as many steps of the
/// generator as the block's number, the first by one. A step is three
/// shifts, each combined with what was shifted.
pub proof fn law_signature_comes_from_the_seed(seed: u64, i: int, a: u64, b: u64, c: u64)
    requires
        0 <= i < 6,
        a == scrambled_times(seed, i as nat) ^ (scrambled_times(seed, i as nat) << 13u64),
        b == a ^ (a >> 7u64),
        c == b ^ (b << 17u64),
    ensures
        scrambled_times(seed, 0) == seed,
        scrambled_times(seed, (i + 1) as nat) == c,
        signature_from(seed).len() == 6,
        signature_from(seed)[i] == palette((c % 8) as int),
{
}

/// Letters are drawn one after another: the pixel in a column and row of the
/// shape of letter `k` is drawn exactly where that row of the column is lit,
/// and between letters nothing is.
pub proof fn law_text_is_drawn(
    font: Font,
    text: Seq<char>,
    x: int,
    y: int,
    colour: Colour,
    k: int,
    column: int,
    row: int,
)
    requires
        0 <= k < text.len(),
        0 <= column < 6,
    ensures
        text_cells(font, text, x, y, colour)(x + 6 * k + column, y + row) == (if column < 5 && 0
            <= row < 7 && font::lit(font.shape(text[k])@[column], row) {
            Some(colour)
        } else {
            None
        }),
        forall|px: int, py: int|
            px < x || px >= x + 6 * text.len() || py < y || py >= y + 7 ==> (#[trigger] text_cells(
                font,
                text,
                x,
                y,
                colour,
            )(px, py)) is None,
{
    assert((6 * k + column) / 6 == k && (6 * k + column) % 6 == column);
}

} // verus!
