use najm_kernel::abi::realm_kind;
use najm_kernel::drivers::input::{pointer_position, Input};
use najm_kernel::graphics::compositor::{
    any_surface_overlaps_trust_bar, commit_surface, commit_surface_from_user, content_region,
    create_surface, draw_text, init, present, present_throttled, read_pixel, remove_surfaces_for,
    signature_block_origin, signature_colours, stats, surface_geometry, Compositor, SurfaceMode,
    MAX_SURFACE_PIXELS, TRUST_BAR_HEIGHT,
};
use najm_kernel::graphics::font::{is_lit, Font};
use najm_kernel::graphics::framebuffer::{Colour, Framebuffer, PixelFormat};
use najm_kernel::graphics::theme::Theme;
use najm_kernel::mm::paging::{PRESENT, USER_ACCESSIBLE, WRITABLE};

const WIDTH: usize = 320;
const HEIGHT: usize = 200;
const SEED: u64 = 0x1234_5678_9abc_def0;

fn screen() -> (Framebuffer, Vec<u8>) {
    let len = WIDTH * HEIGHT * 4;
    let fb = Framebuffer::new(0xfd00_0000, len, WIDTH, HEIGHT, WIDTH * 4, 4, PixelFormat::Rgb);
    (fb, vec![0u8; len])
}

fn font() -> Font {
    Font::new(vec![[0x7f, 0, 0, 0, 0x01]; 95], [0; 5])
}

fn desktop() -> (Compositor, Input, Vec<u8>) {
    let (fb, mem) = screen();
    let mut compositor = Compositor::new();
    let mut input = Input::new();
    init(&mut compositor, &mut input, fb, Theme::default(), SEED);
    (compositor, input, mem)
}

fn shown(compositor: &Compositor, mem: &[u8], x: usize, y: usize) -> Colour {
    let (r, g, b) = read_pixel(compositor, mem, x, y).unwrap();
    Colour::rgb(r, g, b)
}

#[test]
fn colours_are_read() {
    assert_eq!(Colour::parse_hex("#1a2B3c"), Some(Colour::rgb(0x1a, 0x2b, 0x3c)));
    assert_eq!(Colour::parse_hex("ffffff"), Some(Colour::rgb(255, 255, 255)));
    assert_eq!(Colour::parse_hex("#fff"), None);
    assert_eq!(Colour::parse_hex("#1a2b3g"), None);
    assert_eq!(Colour::parse_hex("1a2b3c4"), None);
    assert_eq!(Colour::parse_hex("éé12"), None);
    assert_eq!(Colour::parse_hex(""), None);
    assert_eq!(Colour::parse_hex("+1+2+3"), None);
    assert_eq!(Colour::parse_hex("#-1-2-3"), None);
    assert_eq!(Colour::parse_hex("##12345"), None);
}

#[test]
fn colours_are_blended() {
    let a = Colour::rgb(0, 100, 255);
    let b = Colour::rgb(255, 200, 0);
    assert_eq!(a.blend(b, 0), a);
    assert_eq!(a.blend(b, 255), b);
    assert_eq!(a.blend(b, 128), Colour::rgb(128, 150, 127));
}

fn drawn(format: PixelFormat, bytes_per_pixel: usize) -> Vec<u8> {
    let fb = Framebuffer::new(0, 32, 4, 2, 16, bytes_per_pixel, format);
    let mut mem = vec![0u8; 32];
    fb.set_pixel(&mut mem, 1, 1, Colour::rgb(10, 20, 30));
    let at = 16 + bytes_per_pixel;
    let pixel = mem[at..at + bytes_per_pixel].to_vec();
    for byte in &mut mem[at..at + bytes_per_pixel] {
        *byte = 0;
    }
    assert_eq!(mem, [0u8; 32]);
    pixel
}

#[test]
fn pixels_are_packed_for_the_hardware() {
    assert_eq!(drawn(PixelFormat::Rgb, 4), [10, 20, 30, 0]);
    assert_eq!(drawn(PixelFormat::Rgb, 2), [10, 20]);
    assert_eq!(drawn(PixelFormat::Bgr, 3), [30, 20, 10]);
    assert_eq!(drawn(PixelFormat::Bgr, 1), [30]);
    assert_eq!(drawn(PixelFormat::U8, 1), [((10 * 77 + 20 * 150 + 30 * 29) >> 8) as u8]);
    assert_eq!(drawn(PixelFormat::Unknown, 4), [20, 20, 20, 20]);
}

#[test]
fn drawing_stays_on_the_screen() {
    let fb = Framebuffer::new(7, 60, 4, 4, 16, 4, PixelFormat::Rgb);
    let mut mem = vec![0u8; 60];
    let white = Colour::rgb(255, 255, 255);
    fb.set_pixel(&mut mem, 4, 0, white);
    fb.set_pixel(&mut mem, 0, 4, white);
    fb.set_pixel(&mut mem, usize::MAX, usize::MAX, white);
    // The last pixel is past the end of a mapping that is too short.
    fb.set_pixel(&mut mem, 3, 3, white);
    assert_eq!(mem, [0u8; 60]);
    fb.fill_rect(&mut mem, 2, 1, 100, 1, white);
    assert_eq!(mem.iter().filter(|b| **b == 255).count(), 6);
    assert_eq!((mem[24], mem[28], mem[20], mem[32]), (255, 255, 0, 0));
    assert_eq!(fb.base_address(), 7);
    assert_eq!(fb.format(), PixelFormat::Rgb);
}

#[test]
fn outlines_are_one_pixel_wide() {
    let (fb, mut mem) = screen();
    let red = Colour::rgb(255, 0, 0);
    fb.stroke_rect(&mut mem, 10, 10, 5, 4, red);
    let lit: usize = (0..WIDTH * HEIGHT).filter(|i| mem[4 * i] == 255).count();
    assert_eq!(lit, 14);
    assert_eq!(fb.read_pixel(&mem, 14, 13), Some((255, 0, 0)));
    assert_eq!(fb.read_pixel(&mem, 11, 11), Some((0, 0, 0)));
    fb.stroke_rect(&mut mem, 50, 50, 0, 4, red);
    assert_eq!(fb.read_pixel(&mem, 50, 50), Some((0, 0, 0)));
    fb.clear(&mut mem, red);
    assert_eq!(fb.read_pixel(&mem, WIDTH - 1, HEIGHT - 1), Some((255, 0, 0)));
    assert_eq!(fb.read_pixel(&mem, WIDTH, 0), None);
}

#[test]
fn themes_are_read() {
    let text = "# colours\n\ndesktop = #010203\r\n accent.vault=#a0b0c0\nnonsense\nnope = #000000\ntrust_bar = red\n";
    let (theme, applied, rejected) = Theme::parse(text);
    assert_eq!((applied, rejected), (2, 3));
    let expected = Theme {
        desktop: Colour::rgb(1, 2, 3),
        accent_vault: Colour::rgb(0xa0, 0xb0, 0xc0),
        ..Theme::default()
    };
    assert_eq!(theme, expected);
    assert_eq!(Theme::parse(""), (Theme::default(), 0, 0));
    let every = "desktop=#000001\ntrust_bar=#000002\ntrust_bar.edge=#000003\ntrust_bar.text=#000004\naccent.home=#000005\naccent.gaming=#000006\naccent.vault=#000007\naccent.system=#000008\npointer.fill=#000009\npointer.edge=#00000a";
    let (theme, applied, rejected) = Theme::parse(every);
    assert_eq!((applied, rejected), (10, 0));
    assert_eq!(theme.accent_for_realm(realm_kind::HOME).b, 5);
    assert_eq!(theme.accent_for_realm(realm_kind::GAMING).b, 6);
    assert_eq!(theme.accent_for_realm(realm_kind::VAULT).b, 7);
    assert_eq!(theme.accent_for_realm(realm_kind::SYSTEM).b, 8);
    assert_eq!(theme.accent_for_realm(99).b, 5);
    assert_eq!(theme.pointer_edge.b, 10);
}

#[test]
fn glyphs_have_columns() {
    let f = Font::new(vec![[0; 5], [1, 2, 3, 4, 5]], [9; 5]);
    assert_eq!(f.glyph(' '), [0; 5]);
    assert_eq!(f.glyph('!'), [1, 2, 3, 4, 5]);
    assert_eq!(f.glyph('"'), [9; 5]);
    assert_eq!(f.glyph('\n'), [9; 5]);
    assert_eq!(f.glyph('é'), [9; 5]);
    assert!(is_lit(0x40, 6));
    assert!(!is_lit(0x40, 5));
}

#[test]
fn text_is_drawn() {
    let (fb, mut mem) = screen();
    draw_text(&fb, &mut mem, &font(), 10, 20, "ab", Colour::rgb(255, 255, 255));
    let lit: Vec<(usize, usize)> = (0..WIDTH * HEIGHT)
        .filter(|i| mem[4 * i] == 255)
        .map(|i| (i % WIDTH, i / WIDTH))
        .collect();
    let mut expected = Vec::new();
    for y in 20..27 {
        for x in [10, 14, 16, 20] {
            if x % 6 == 4 || y == 20 {
                expected.push((x, y));
            }
        }
    }
    assert_eq!(lit, expected);
}

#[test]
fn windows_are_placed_below_the_strip() {
    let (mut c, input, _) = desktop();
    assert_eq!(pointer_position(&input), (160, 100));
    let (fb, _) = screen();
    assert_eq!(content_region(&fb), (0, 20, 320, 180));
    let first = create_surface(&mut c, 1, realm_kind::HOME, "a", 100, 50, SurfaceMode::Windowed);
    let second = create_surface(&mut c, 2, realm_kind::VAULT, "b", 1000, 1000, SurfaceMode::Windowed);
    let third = create_surface(&mut c, 2, realm_kind::VAULT, "c", 0, 0, SurfaceMode::Fullscreen);
    assert_eq!((first, second, third), (Some(1), Some(2), Some(3)));
    assert_eq!(create_surface(&mut c, 1, 0, "d", 0, 5, SurfaceMode::Windowed), None);
    assert_eq!(surface_geometry(&c, 1, 1), Some((100, 50)));
    assert_eq!(surface_geometry(&c, 2, 2), Some((320, 180)));
    assert_eq!(surface_geometry(&c, 3, 2), Some((320, 180)));
    assert_eq!(surface_geometry(&c, 1, 2), None);
    assert_eq!(surface_geometry(&c, 9, 1), None);
    assert!(!any_surface_overlaps_trust_bar(&c));
    assert_eq!(stats(&c), (3, 0, 0));
}

#[test]
fn surfaces_survive_a_change_of_theme() {
    let (mut c, mut input, _) = desktop();
    let a = create_surface(&mut c, 1, realm_kind::HOME, "a", 100, 50, SurfaceMode::Windowed);
    let (fb, _) = screen();
    init(&mut c, &mut input, fb, Theme::default(), SEED);
    assert_eq!(surface_geometry(&c, a.unwrap(), 1), Some((100, 50)));
    assert!(!any_surface_overlaps_trust_bar(&c));
}

#[test]
fn there_is_no_surface_without_a_screen() {
    let mut c = Compositor::new();
    assert_eq!(create_surface(&mut c, 1, 0, "a", 5, 5, SurfaceMode::Windowed), None);
    assert_eq!(read_pixel(&c, &[], 0, 0), None);
    assert_eq!(signature_block_origin(&c, 0), None);
    present(&mut c, &mut [], &font(), (0, 0), 1);
    assert_eq!(stats(&c), (0, 0, 0));
}

#[test]
fn surfaces_have_a_largest_size() {
    let (w, h) = (4096, 2069);
    let fb = Framebuffer::new(0, 0, w, h, w * 4, 4, PixelFormat::Rgb);
    let mut c = Compositor::new();
    init(&mut c, &mut Input::new(), fb, Theme::default(), 1);
    assert!(w * (h - TRUST_BAR_HEIGHT) > MAX_SURFACE_PIXELS);
    assert_eq!(create_surface(&mut c, 1, 0, "big", w, h, SurfaceMode::Windowed), None);
    assert_eq!(create_surface(&mut c, 1, 0, "big", 0, 0, SurfaceMode::Fullscreen), None);
}

#[test]
fn a_frame_shows_surfaces_pointer_and_strip() {
    let (mut c, _, mut mem) = desktop();
    let theme = Theme::default();
    create_surface(&mut c, 1, realm_kind::GAMING, "a", 100, 50, SurfaceMode::Windowed).unwrap();
    let pixels = vec![0x00_11_22_33u32; 5000];
    assert!(commit_surface(&mut c, 1, 1, &pixels));
    present(&mut c, &mut mem, &font(), (300, 190), 1);
    // The window is at (40, 50), with a border in the Realm's colour.
    assert_eq!(shown(&c, &mem, 41, 51), Colour::rgb(0x11, 0x22, 0x33));
    assert_eq!(shown(&c, &mem, 40, 50), theme.accent_gaming);
    assert_eq!(shown(&c, &mem, 139, 99), theme.accent_gaming);
    assert_eq!(shown(&c, &mem, 140, 99), theme.desktop);
    assert_eq!(shown(&c, &mem, 300, 190), theme.pointer_edge);
    assert_eq!(shown(&c, &mem, 301, 191), theme.pointer_fill);
    // The strip.
    assert_eq!(shown(&c, &mem, 0, 0), theme.trust_bar);
    assert_eq!(shown(&c, &mem, 0, 19), theme.trust_bar_edge);
    assert_eq!(shown(&c, &mem, 6, 5), theme.accent_gaming);
    assert_eq!(shown(&c, &mem, 22, 7), theme.trust_bar_text);
    assert_eq!(stats(&c), (1, 1, 0));
}

#[test]
fn the_strip_cannot_be_drawn_over() {
    let (mut c, _, mut mem) = desktop();
    present(&mut c, &mut mem, &font(), (160, 100), 1);
    let before = mem[..WIDTH * TRUST_BAR_HEIGHT * 4].to_vec();
    create_surface(&mut c, 1, realm_kind::HOME, "a", 0, 0, SurfaceMode::Fullscreen).unwrap();
    let pixels = vec![0xff_ff_ffu32; 320 * 180];
    assert!(commit_surface(&mut c, 1, 1, &pixels));
    remove_surfaces_for(&mut c, 7);
    present(&mut c, &mut mem, &font(), (0, 0), 1);
    // Only what the kernel itself says of the focused Realm differs.
    let after = mem[..WIDTH * TRUST_BAR_HEIGHT * 4].to_vec();
    for i in 0..WIDTH * TRUST_BAR_HEIGHT {
        let (x, y) = (i % WIDTH, i / WIDTH);
        let label = (6..16).contains(&x) && (5..15).contains(&y) || (22..100).contains(&x) && (7..14).contains(&y);
        if !label {
            assert_eq!(before[4 * i..4 * i + 4], after[4 * i..4 * i + 4]);
        }
    }
    assert_eq!(shown(&c, &mem, 0, 20), Colour::rgb(255, 255, 255));
}

#[test]
fn the_signature_comes_from_the_seed() {
    let palette = [
        0xE63946, 0xF79D1E, 0xFFD166, 0x4CC97C, 0x2EC4B6, 0x3A86FF, 0x9B5DE5, 0xF15BB5,
    ];
    let (mut c, _, mut mem) = desktop();
    let signature = signature_colours(&c);
    let mut state = SEED;
    for colour in signature {
        state ^= state << 13;
        state ^= state >> 7;
        state ^= state << 17;
        let v: u32 = palette[(state % 8) as usize];
        assert_eq!(colour, Colour::rgb((v >> 16) as u8, (v >> 8) as u8, v as u8));
    }
    present(&mut c, &mut mem, &font(), (160, 100), 1);
    for (i, colour) in signature.iter().enumerate() {
        let (x, y) = signature_block_origin(&c, i).unwrap();
        assert_eq!((x, y), (320 - 86 + 13 * i + 5, 10));
        assert_eq!(shown(&c, &mem, x, y), *colour);
    }
}

#[test]
fn commits_are_checked() {
    let (mut c, _, _) = desktop();
    create_surface(&mut c, 1, 0, "a", 10, 10, SurfaceMode::Windowed).unwrap();
    assert!(!commit_surface(&mut c, 9, 1, &[0; 100]));
    assert_eq!(stats(&c).2, 0);
    assert!(!commit_surface(&mut c, 1, 2, &[0; 100]));
    assert!(!commit_surface(&mut c, 1, 1, &[0; 99]));
    assert_eq!(stats(&c).2, 2);
    assert!(commit_surface(&mut c, 1, 1, &[0; 100]));
}

#[test]
fn frames_come_from_user_memory() {
    let mut mem = vec![0u8; 0x8000];
    let user = PRESENT | WRITABLE | USER_ACCESSIBLE;
    for (table, next) in [(0x1000usize, 0x2000u64), (0x2000, 0x3000), (0x3000, 0x4000)] {
        mem[table..table + 8].copy_from_slice(&(next | user).to_le_bytes());
    }
    mem[0x4008..0x4010].copy_from_slice(&(0x6000 | user).to_le_bytes());
    for i in 0..100u32 {
        let at = 0x6000 + 4 * i as usize;
        mem[at..at + 4].copy_from_slice(&(0x10_0000 * i).to_le_bytes());
    }
    let (mut c, _, mut screen) = desktop();
    create_surface(&mut c, 1, 0, "a", 10, 10, SurfaceMode::Windowed).unwrap();
    assert!(!commit_surface_from_user(&mut c, &mem, 0x1000, 1, 1, 0x1000, 404));
    assert!(!commit_surface_from_user(&mut c, &mem, 0x1000, 1, 2, 0x1000, 400));
    assert!(!commit_surface_from_user(&mut c, &mem, 0x1000, 1, 1, 0x1fff, 400));
    assert!(!commit_surface_from_user(&mut c, &mem, 0x1000, 5, 1, 0x1000, 400));
    assert_eq!(stats(&c).2, 3);
    assert!(commit_surface_from_user(&mut c, &mem, 0x1000, 1, 1, 0x1000, 400));
    present(&mut c, &mut screen, &font(), (160, 100), 1);
    assert_eq!(shown(&c, &screen, 42, 51), Colour::rgb(0xc0, 0, 0));
}

#[test]
fn a_dead_process_leaves_nothing_behind() {
    let (mut c, _, mut mem) = desktop();
    let theme = Theme::default();
    create_surface(&mut c, 1, realm_kind::VAULT, "a", 10, 10, SurfaceMode::Windowed).unwrap();
    create_surface(&mut c, 2, realm_kind::GAMING, "b", 10, 10, SurfaceMode::Windowed).unwrap();
    create_surface(&mut c, 2, realm_kind::GAMING, "c", 10, 10, SurfaceMode::Windowed).unwrap();
    remove_surfaces_for(&mut c, 2);
    assert_eq!(stats(&c).0, 1);
    assert_eq!(surface_geometry(&c, 2, 2), None);
    present(&mut c, &mut mem, &font(), (160, 100), 1);
    assert_eq!(shown(&c, &mem, 10, 10), theme.accent_vault);
    remove_surfaces_for(&mut c, 1);
    present(&mut c, &mut mem, &font(), (160, 100), 1);
    assert_eq!(shown(&c, &mem, 10, 10), theme.trust_bar_text);
    // Numbers are not used again.
    assert_eq!(create_surface(&mut c, 3, 0, "d", 10, 10, SurfaceMode::Windowed), Some(4));
}

#[test]
fn one_frame_is_drawn_per_tick() {
    let (mut c, _, mut mem) = desktop();
    present_throttled(&mut c, &mut mem, &font(), (0, 0), 0);
    present_throttled(&mut c, &mut mem, &font(), (0, 0), 0);
    assert_eq!(stats(&c).1, 1);
    present_throttled(&mut c, &mut mem, &font(), (0, 0), 5);
    present_throttled(&mut c, &mut mem, &font(), (0, 0), 5);
    assert_eq!(stats(&c).1, 2);
    present(&mut c, &mut mem, &font(), (0, 0), 6);
    present_throttled(&mut c, &mut mem, &font(), (0, 0), 6);
    assert_eq!(stats(&c).1, 3);
    present(&mut c, &mut mem, &font(), (0, 0), 6);
    assert_eq!(stats(&c).1, 4);
    present_throttled(&mut c, &mut mem, &font(), (0, 0), 7);
    assert_eq!(stats(&c).1, 5);
}

#[test]
fn the_built_in_font_has_every_printable_character() {
    let font = Font::built_in();
    assert!(font.glyph(' ').iter().all(|column| *column == 0));
    assert_eq!(font.glyph('A'), [0x7e, 0x11, 0x11, 0x11, 0x7e]);
    assert_eq!(font.glyph('\u{e9}'), [0x7f, 0x41, 0x41, 0x41, 0x7f]);
}

#[test]
fn every_pixel_on_the_screen_is_read() {
    let fb = Framebuffer::new(0, 28, 4, 2, 16, 4, PixelFormat::Rgb);
    let mut mem = vec![0u8; 28];
    fb.set_pixel(&mut mem, 2, 1, Colour::rgb(1, 2, 3));
    fb.set_pixel(&mut mem, 3, 1, Colour::rgb(4, 5, 6));
    mem.extend_from_slice(&[7, 8, 9]);
    assert_eq!(fb.read_pixel(&mem, 2, 1), Some((1, 2, 3)));
    assert_eq!(fb.read_pixel(&mem, 3, 1), Some((7, 8, 9)));
    assert_eq!(fb.read_pixel(&mem, 4, 1), None);
    assert_eq!(fb.read_pixel(&mem, 3, 2), None);
    let grey = Framebuffer::new(0, 4, 4, 1, 4, 1, PixelFormat::U8);
    assert_eq!(grey.read_pixel(&[1, 2, 3, 4], 3, 0), Some((4, 0, 0)));
}

#[test]
fn a_smaller_screen_clips_what_was_placed_on_a_larger_one() {
    let (mut c, mut input, _) = desktop();
    let id = create_surface(&mut c, 1, realm_kind::HOME, "a", 100, 50, SurfaceMode::Windowed);
    let off = create_surface(&mut c, 1, realm_kind::HOME, "b", 100, 50, SurfaceMode::Windowed);
    assert!(commit_surface(&mut c, id.unwrap(), 1, &[0x0a0b0c; 5000]));
    assert!(commit_surface(&mut c, off.unwrap(), 1, &[0x0d0e0f; 5000]));
    let fb = Framebuffer::new(0, 60 * 60 * 4, 60, 60, 240, 4, PixelFormat::Rgb);
    let mut mem = vec![0u8; 60 * 60 * 4];
    let theme = Theme::default();
    init(&mut c, &mut input, fb, Theme::default(), SEED);
    present(&mut c, &mut mem, &font(), (0, 0), 1);
    assert_eq!(surface_geometry(&c, id.unwrap(), 1), Some((100, 50)));
    assert_eq!(shown(&c, &mem, 50, 55), Colour::rgb(0x0a, 0x0b, 0x0c));
    for (x, y) in [(40, 55), (59, 55), (50, 50), (50, 59)] {
        assert_eq!(shown(&c, &mem, x, y), theme.accent_home);
    }
    assert_eq!(shown(&c, &mem, 39, 55), theme.desktop);
    assert_eq!(shown(&c, &mem, 50, 49), theme.desktop);
}

#[test]
fn blocks_past_the_signature_go_on_at_the_same_distance() {
    let (c, _, _) = desktop();
    assert_eq!(signature_block_origin(&c, 0), Some((239, 10)));
    assert_eq!(signature_block_origin(&c, 6), Some((317, 10)));
    assert_eq!(signature_block_origin(&c, 100), Some((1539, 10)));
}

#[test]
fn without_a_seed_the_signature_is_black() {
    assert_eq!(signature_colours(&Compositor::new()), [Colour::rgb(0, 0, 0); 6]);
}

#[test]
fn a_theme_cannot_change_what_the_strip_says() {
    let (fb, _) = screen();
    let (plain, applied, _) = Theme::parse("trust_bar.text = #ffffff\ntrust_bar = #000000");
    assert_eq!(applied, 2);
    let (other, _, _) = Theme::parse("trust_bar.text = #102030\ntrust_bar = #405060");
    let mut strips = Vec::new();
    for theme in [plain, other] {
        let mut compositor = Compositor::new();
        let mut input = Input::new();
        init(&mut compositor, &mut input, fb, theme, SEED);
        let mut mem = vec![0u8; WIDTH * HEIGHT * 4];
        present(&mut compositor, &mut mem, &font(), (0, 100), 1);
        let text = theme.trust_bar_text;
        let lit: Vec<bool> =
            (22..64).map(|x| shown(&compositor, &mem, x, 7) == text).collect();
        assert!(lit.contains(&true) && lit.contains(&false));
        let signature: Vec<Colour> = (0..6)
            .map(|i| {
                let (x, y) = signature_block_origin(&compositor, i).unwrap();
                shown(&compositor, &mem, x, y)
            })
            .collect();
        strips.push((lit, signature));
    }
    assert_eq!(strips[0], strips[1]);
}
