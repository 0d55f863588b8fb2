//! Theming: everything a user may customize about the desktop.
//!
//! What the trust bar says, where it is and that it is drawn at all are
//! not here and cannot be reached from here. A theme may change its
//! colours and nothing else about it.
use vstd::prelude::*;
use crate::abi::realm_kind;
use crate::graphics::framebuffer::{self, Colour};
use crate::settings::{self, line_end, read_line, Line};
use crate::text::{chars_of, text_eq};

verus! {

/// The colours of the desktop.
#[derive(Debug, Clone, Copy, PartialEq, Eq, Structural)]
pub struct Theme {
    /// Behind all windows.
    pub desktop: Colour,
    /// The background of the reserved strip.
    pub trust_bar: Colour,
    /// The line between the kernel's pixels and the Realms' pixels.
    pub trust_bar_edge: Colour,
    pub trust_bar_text: Colour,
    pub accent_home: Colour,
    pub accent_gaming: Colour,
    pub accent_vault: Colour,
    pub accent_system: Colour,
    pub pointer_fill: Colour,
    pub pointer_edge: Colour,
}

/// The built-in theme.
pub open spec fn built_in() -> Theme {
    Theme {
        desktop: Colour { r: 0x10, g: 0x14, b: 0x1C },
        trust_bar: Colour { r: 0x06, g: 0x08, b: 0x0C },
        trust_bar_edge: Colour { r: 0x2A, g: 0x33, b: 0x44 },
        trust_bar_text: Colour { r: 0xE8, g: 0xEE, b: 0xF7 },
        accent_home: Colour { r: 0x3A, g: 0x86, b: 0xFF },
        accent_gaming: Colour { r: 0xF7, g: 0x25, b: 0x85 },
        accent_vault: Colour { r: 0x4C, g: 0xC9, b: 0x7C },
        accent_system: Colour { r: 0xFF, g: 0xD1, b: 0x66 },
        pointer_fill: Colour { r: 0xFF, g: 0xFF, b: 0xFF },
        pointer_edge: Colour { r: 0x1A, g: 0x1A, b: 0x1A },
    }
}

impl Default for Theme {
    /// The built-in theme, which is always there to fall back on.
    fn default() -> (theme: Self)
        ensures
            theme == built_in(),
    {
        Theme {
            desktop: Colour::rgb(0x10, 0x14, 0x1C),
            trust_bar: Colour::rgb(0x06, 0x08, 0x0C),
            trust_bar_edge: Colour::rgb(0x2A, 0x33, 0x44),
            trust_bar_text: Colour::rgb(0xE8, 0xEE, 0xF7),
            accent_home: Colour::rgb(0x3A, 0x86, 0xFF),
            accent_gaming: Colour::rgb(0xF7, 0x25, 0x85),
            accent_vault: Colour::rgb(0x4C, 0xC9, 0x7C),
            accent_system: Colour::rgb(0xFF, 0xD1, 0x66),
            pointer_fill: Colour::rgb(0xFF, 0xFF, 0xFF),
            pointer_edge: Colour::rgb(0x1A, 0x1A, 0x1A),
        }
    }
}

/// What reading a theme has come to so far.
pub struct Reading {
    pub theme: Theme,
    pub applied: int,
    pub rejected: int,
}

/// The theme with one colour changed. `None` if there is no such colour.
pub open spec fn recoloured(theme: Theme, key: Seq<char>, colour: Colour) -> Option<Theme> {
    if key == "desktop"@ {
        Some(Theme { desktop: colour, ..theme })
    } else if key == "trust_bar"@ {
        Some(Theme { trust_bar: colour, ..theme })
    } else if key == "trust_bar.edge"@ {
        Some(Theme { trust_bar_edge: colour, ..theme })
    } else if key == "trust_bar.text"@ {
        Some(Theme { trust_bar_text: colour, ..theme })
    } else if key == "accent.home"@ {
        Some(Theme { accent_home: colour, ..theme })
    } else if key == "accent.gaming"@ {
        Some(Theme { accent_gaming: colour, ..theme })
    } else if key == "accent.vault"@ {
        Some(Theme { accent_vault: colour, ..theme })
    } else if key == "accent.system"@ {
        Some(Theme { accent_system: colour, ..theme })
    } else if key == "pointer.fill"@ {
        Some(Theme { pointer_fill: colour, ..theme })
    } else if key == "pointer.edge"@ {
        Some(Theme { pointer_edge: colour, ..theme })
    } else {
        None
    }
}

/// The reading after one more line. A line that sets nothing is counted,
/// not passed over in silence.
pub open spec fn with_line(r: Reading, line: settings::LineView) -> Reading {
    match line {
        settings::LineView::Blank => r,
        settings::LineView::NotASetting => Reading { rejected: r.rejected + 1, ..r },
        settings::LineView::Setting { key, value } => match framebuffer::colour_of(value) {
            None => Reading { rejected: r.rejected + 1, ..r },
            Some(colour) => match recoloured(r.theme, key, colour) {
                None => Reading { rejected: r.rejected + 1, ..r },
                Some(theme) => Reading { theme, applied: r.applied + 1, ..r },
            },
        },
    }
}

/// The reading after the lines of `s` from `from` on.
pub open spec fn with_lines(r: Reading, s: Seq<char>, from: int) -> Reading
    decreases s.len() + 1 - from,
{
    if from < 0 || from > s.len() {
        r
    } else {
        let end = settings::next_char(s, '\n', from);
        if from <= end <= s.len() {
            with_lines(with_line(r, settings::line_meaning(s.subrange(from, end))), s, end + 1)
        } else {
            r
        }
    }
}

/// What a theme file says: the built-in theme with what the file names
/// changed, how many settings were applied and how many lines rejected.
pub open spec fn reading_of(s: Seq<char>) -> Reading {
    with_lines(Reading { theme: built_in(), applied: 0, rejected: 0 }, s, 0)
}

impl Theme {
    /// The accent colour of a Realm.
    pub open spec fn accent(self, kind: u64) -> Colour {
        if kind == realm_kind::GAMING {
            self.accent_gaming
        } else if kind == realm_kind::VAULT {
            self.accent_vault
        } else if kind == realm_kind::SYSTEM {
            self.accent_system
        } else {
            self.accent_home
        }
    }

    /// The accent colour for a Realm kind.
    pub fn accent_for_realm(&self, kind: u64) -> (colour: Colour)
        ensures
            colour == self.accent(kind),
    {
        if kind == realm_kind::GAMING {
            self.accent_gaming
        } else if kind == realm_kind::VAULT {
            self.accent_vault
        } else if kind == realm_kind::SYSTEM {
            self.accent_system
        } else {
            self.accent_home
        }
    }

    /// Changes one colour, and says whether there is one of that name.
    fn recolour(&mut self, key: &str, colour: Colour) -> (found: bool)
        ensures
            match recoloured(*old(self), key@, colour) {
                Some(theme) => found && *final(self) == theme,
                None => !found && *final(self) == *old(self),
            },
    {
        if text_eq(key, "desktop") {
            self.desktop = colour;
        } else if text_eq(key, "trust_bar") {
            self.trust_bar = colour;
        } else if text_eq(key, "trust_bar.edge") {
            self.trust_bar_edge = colour;
        } else if text_eq(key, "trust_bar.text") {
            self.trust_bar_text = colour;
        } else if text_eq(key, "accent.home") {
            self.accent_home = colour;
        } else if text_eq(key, "accent.gaming") {
            self.accent_gaming = colour;
        } else if text_eq(key, "accent.vault") {
            self.accent_vault = colour;
        } else if text_eq(key, "accent.system") {
            self.accent_system = colour;
        } else if text_eq(key, "pointer.fill") {
            self.pointer_fill = colour;
        } else if text_eq(key, "pointer.edge") {
            self.pointer_edge = colour;
        } else {
            return false;
        }
        true
    }

    /// Reads a theme file. Returns the theme, how many settings were
    /// applied and how many lines were rejected.
    pub fn parse(text: &str) -> (r: (Theme, usize, usize))
        ensures
            ({
                let reading = reading_of(text@);
                r.0 == reading.theme && r.1 == reading.applied && r.2 == reading.rejected
            }),
    {
        let s: Vec<char> = chars_of(text);
        let mut theme: Theme = Theme::default();
        let mut applied: usize = 0;
        let mut rejected: usize = 0;
        let mut from: usize = 0;
        let mut more: bool = true;
        while more
            invariant
                s@ == text@,
                more ==> from <= s@.len() && applied + rejected <= from && reading_of(s@)
                    == with_lines(
                    Reading { theme, applied: applied as int, rejected: rejected as int },
                    s@,
                    from as int,
                ),
                !more ==> reading_of(s@) == (Reading {
                    theme,
                    applied: applied as int,
                    rejected: rejected as int,
                }),
            decreases (if more { s@.len() + 1 - from } else { 0 }),
        {
            let end: usize = line_end(&s, from);
            let ghost before = Reading { theme, applied: applied as int, rejected: rejected as int };
            let ghost meaning = settings::line_meaning(s@.subrange(from as int, end as int));
            match read_line(&s, from, end) {
                Line::Blank => {},
                Line::NotASetting => {
                    assert(from < end);
                    rejected += 1;
                },
                Line::Setting { key, value } => {
                    assert(from < end);
                    let mut found: bool = false;
                    if let Some(colour) = Colour::parse_hex(value.as_str()) {
                        found = theme.recolour(key.as_str(), colour);
                    }
                    if found {
                        applied += 1;
                    } else {
                        rejected += 1;
                    }
                },
            }
            let ghost after = Reading { theme, applied: applied as int, rejected: rejected as int };
            assert(after == with_line(before, meaning));
            if end < s.len() {
                from = end + 1;
            } else {
                assert(with_lines(after, s@, end + 1) == after);
                more = false;
            }
        }
        (theme, applied, rejected)
    }
}

/// A theme is read line by line, so a bad line costs nothing but itself:
/// it changes no colour and is counted.
pub proof fn law_bad_lines_are_skipped(r: Reading, line: settings::LineView)
    requires
        with_line(r, line).applied == r.applied,
    ensures
        with_line(r, line).theme == r.theme,
        r.rejected <= with_line(r, line).rejected <= r.rejected + 1,
        line !is Blank ==> with_line(r, line).rejected == r.rejected + 1,
{
}

/// A theme is read line by line: what comes of a text from the start of a
/// line on is what that line makes of the reading, and then the lines after
/// it.
pub proof fn law_themes_are_read_line_by_line(r: Reading, s: Seq<char>, from: int, end: int)
    requires
        0 <= from <= end <= s.len(),
        forall|i: int| from <= i < end ==> #[trigger] s[i] != '\n',
        end < s.len() ==> s[end] == '\n',
    ensures
        with_lines(r, s, from) == with_lines(
            with_line(r, settings::line_meaning(s.subrange(from, end))),
            s,
            end + 1,
        ),
        with_lines(r, s, s.len() as int + 1) == r,
        reading_of(s) == with_lines(Reading { theme: built_in(), applied: 0, rejected: 0 }, s, 0),
{
    settings::law_search_finds_the_first(s, '\n', from, end);
}

/// A setting changes the colour that its key names, and no other, and is
/// counted as applied. A key that names no colour is counted as rejected, and
/// so is a value that is none.
pub proof fn law_keys_name_their_colours(r: Reading, key: Seq<char>, value: Seq<char>, c: Colour)
    requires
        framebuffer::colour_of(value) == Some(c),
    ensures
        ({
            let after = with_line(r, settings::LineView::Setting { key, value });
            let was = r.theme;
            let known = key == "desktop"@ || key == "trust_bar"@ || key == "trust_bar.edge"@ || key
                == "trust_bar.text"@ || key == "accent.home"@ || key == "accent.gaming"@ || key
                == "accent.vault"@ || key == "accent.system"@ || key == "pointer.fill"@ || key
                == "pointer.edge"@;
            &&& known ==> after.applied == r.applied + 1 && after.rejected == r.rejected
            &&& !known ==> after.rejected == r.rejected + 1 && after.applied == r.applied
            &&& after.theme.desktop == (if key == "desktop"@ {
                c
            } else {
                was.desktop
            })
            &&& after.theme.trust_bar == (if key == "trust_bar"@ {
                c
            } else {
                was.trust_bar
            })
            &&& after.theme.trust_bar_edge == (if key == "trust_bar.edge"@ {
                c
            } else {
                was.trust_bar_edge
            })
            &&& after.theme.trust_bar_text == (if key == "trust_bar.text"@ {
                c
            } else {
                was.trust_bar_text
            })
            &&& after.theme.accent_home == (if key == "accent.home"@ {
                c
            } else {
                was.accent_home
            })
            &&& after.theme.accent_gaming == (if key == "accent.gaming"@ {
                c
            } else {
                was.accent_gaming
            })
            &&& after.theme.accent_vault == (if key == "accent.vault"@ {
                c
            } else {
                was.accent_vault
            })
            &&& after.theme.accent_system == (if key == "accent.system"@ {
                c
            } else {
                was.accent_system
            })
            &&& after.theme.pointer_fill == (if key == "pointer.fill"@ {
                c
            } else {
                was.pointer_fill
            })
            &&& after.theme.pointer_edge == (if key == "pointer.edge"@ {
                c
            } else {
                was.pointer_edge
            })
        }),
{
    reveal_strlit("desktop");
    reveal_strlit("trust_bar");
    reveal_strlit("trust_bar.edge");
    reveal_strlit("trust_bar.text");
    reveal_strlit("accent.home");
    reveal_strlit("accent.gaming");
    reveal_strlit("accent.vault");
    reveal_strlit("accent.system");
    reveal_strlit("pointer.fill");
    reveal_strlit("pointer.edge");
    assert("desktop"@.len() == 7);
    assert("trust_bar"@.len() == 9);
    assert("trust_bar.edge"@.len() == 14);
    assert("trust_bar.text"@.len() == 14);
    assert("accent.home"@.len() == 11);
    assert("accent.gaming"@.len() == 13);
    assert("accent.vault"@.len() == 12);
    assert("accent.system"@.len() == 13);
    assert("pointer.fill"@.len() == 12);
    assert("pointer.edge"@.len() == 12);
    assert("trust_bar.edge"@[10] == 'e' && "trust_bar.text"@[10] == 't');
    assert("pointer.fill"@[8] == 'f' && "pointer.edge"@[8] == 'e' && "accent.vault"@[8] == 'a');
    assert("accent.gaming"@[7] == 'g' && "accent.system"@[7] == 's');
    assert("accent.vault"@[0] == 'a' && "pointer.fill"@[0] == 'p' && "pointer.edge"@[0] == 'p');
}

/// What is no setting changes nothing, and is counted as rejected unless it
/// is blank.
pub proof fn law_other_lines_set_nothing(r: Reading, key: Seq<char>, value: Seq<char>)
    ensures
        with_line(r, settings::LineView::Blank) == r,
        with_line(r, settings::LineView::NotASetting) == (Reading { rejected: r.rejected + 1, ..r }),
        framebuffer::colour_of(value) is None ==> with_line(
            r,
            settings::LineView::Setting { key, value },
        ) == (Reading { rejected: r.rejected + 1, ..r }),
{
}

/// Every Realm has its own accent: Home, Gaming, Vault and System in the
/// order of their numbers, and Home's for any other.
pub proof fn law_realms_have_their_accents(theme: Theme, kind: u64)
    ensures
        theme.accent(0) == theme.accent_home,
        theme.accent(1) == theme.accent_gaming,
        theme.accent(2) == theme.accent_vault,
        theme.accent(3) == theme.accent_system,
        kind > 3 ==> theme.accent(kind) == theme.accent_home,
{
}

} // verus!
