//! App theming. Three themes: "Forest Sage" (the default), "Dark Emerald"
//! and the light "Light Sage". Each pairs a palette (CSS named-colour
//! overrides) with a matching editor scheme. Green is the point, light or
//! dark.

use vstd::prelude::*;

use crate::text::{chars_of, trimmed};

verus! {

/// The Forest Sage theme.
pub const FOREST: &'static str = "forest";

/// The Dark Emerald theme.
pub const EMERALD: &'static str = "emerald";

/// The Light Sage theme.
pub const LIGHT: &'static str = "light";

/// The Forest Sage palette (the default).
pub const FOREST_CSS: &'static str = r#"
@define-color window_bg_color   #0B231A;
@define-color window_fg_color   #D6ECE0;
@define-color view_bg_color     #0C2A20;
@define-color view_fg_color     #D6ECE0;
@define-color headerbar_bg_color #0D2820;
@define-color headerbar_fg_color #D6ECE0;
@define-color card_bg_color     #0E2A20;
@define-color popover_bg_color  #0E2A20;
@define-color popover_fg_color  #D6ECE0;
@define-color dialog_bg_color   #0C2A20;
@define-color dialog_fg_color   #D6ECE0;
@define-color sidebar_bg_color  #0A2017;
@define-color sidebar_fg_color  #D6ECE0;
@define-color accent_bg_color   #2ECC71;
@define-color accent_fg_color   #06160F;
@define-color accent_color      #95D1AF;

.mh-sidebar { background-color: @sidebar_bg_color; }
.mh-sidebar button { background: transparent; border-radius: 6px; }
.mh-sidebar button:hover { background-color: alpha(#2ECC71, 0.12); }
.mh-preview a { color: #95D1AF; }
"#;

/// The Dark Emerald palette.
pub const EMERALD_CSS: &'static str = r#"
@define-color window_bg_color   #0A0C0A;
@define-color window_fg_color   #D4E6DC;
@define-color view_bg_color     #0B0F0D;
@define-color view_fg_color     #D4E6DC;
@define-color headerbar_bg_color #0C100E;
@define-color headerbar_fg_color #D4E6DC;
@define-color card_bg_color     #0E1411;
@define-color popover_bg_color  #0E1411;
@define-color popover_fg_color  #D4E6DC;
@define-color dialog_bg_color   #0B0F0D;
@define-color dialog_fg_color   #D4E6DC;
@define-color sidebar_bg_color  #080A08;
@define-color sidebar_fg_color  #D4E6DC;
@define-color accent_bg_color   #2ECC71;
@define-color accent_fg_color   #05130B;
@define-color accent_color      #46D886;

.mh-sidebar { background-color: @sidebar_bg_color; }
.mh-sidebar button { background: transparent; border-radius: 6px; }
.mh-sidebar button:hover { background-color: alpha(#2ECC71, 0.14); }
.mh-preview a { color: #46D886; }
"#;

/// The Light Sage palette.
pub const LIGHT_CSS: &'static str = r#"
@define-color window_bg_color   #F2F8F4;
@define-color window_fg_color   #143025;
@define-color view_bg_color     #FFFFFF;
@define-color view_fg_color     #143025;
@define-color headerbar_bg_color #E8F1EB;
@define-color headerbar_fg_color #143025;
@define-color card_bg_color     #FFFFFF;
@define-color popover_bg_color  #FFFFFF;
@define-color popover_fg_color  #143025;
@define-color dialog_bg_color   #FFFFFF;
@define-color dialog_fg_color   #143025;
@define-color sidebar_bg_color  #E8F1EB;
@define-color sidebar_fg_color  #143025;
@define-color accent_bg_color   #1E9E59;
@define-color accent_fg_color   #FFFFFF;
@define-color accent_color      #1B7A45;

.mh-sidebar { background-color: @sidebar_bg_color; }
.mh-sidebar button { background: transparent; border-radius: 6px; }
.mh-sidebar button:hover { background-color: alpha(#1E9E59, 0.12); }
.mh-preview a { color: #1B7A45; }
"#;

/// Whether two strings hold the same characters.
pub fn same_text(a: &str, b: &str) -> (r: bool)
    ensures
        r == (a@ == b@),
{
    let x = chars_of(a);
    let y = chars_of(b);
    if x.len() != y.len() {
        return false;
    }
    let mut k: usize = 0;
    while k < x.len()
        invariant
            k <= x.len() == y.len(),
            x@ == a@,
            y@ == b@,
            forall|i: int| 0 <= i < k ==> x@[i] == y@[i],
        decreases x.len() - k,
    {
        if x[k] != y[k] {
            assert(x@[k as int] != y@[k as int]);
            assert(a@ != b@) by {
                if a@ == b@ {
                    assert(x@[k as int] == y@[k as int]);
                }
            }
            return false;
        }
        k += 1;
    }
    assert(x@ =~= y@);
    true
}

/// Whether `theme` is a light theme. Drives the colour scheme and the code
/// highlight palette, which both differ light vs dark.
pub fn is_light(theme: &str) -> (r: bool)
    ensures
        r == (theme@ == LIGHT@),
{
    same_text(theme, LIGHT)
}

/// The palette of a theme; an unknown theme gets Forest Sage's.
pub open spec fn theme_css(theme: Seq<char>) -> Seq<char> {
    if theme == EMERALD@ {
        EMERALD_CSS@
    } else if theme == LIGHT@ {
        LIGHT_CSS@
    } else {
        FOREST_CSS@
    }
}

/// The palette (CSS) of `theme`.
pub fn css_for(theme: &str) -> (r: &'static str)
    ensures
        r@ == theme_css(theme@),
{
    if same_text(theme, EMERALD) {
        EMERALD_CSS
    } else if same_text(theme, LIGHT) {
        LIGHT_CSS
    } else {
        FOREST_CSS
    }
}

/// The theme read back from the saved setting: Dark Emerald or Light Sage
/// when the file holds that name (surrounding whitespace ignored), Forest
/// Sage otherwise, and when there is no saved setting.
pub open spec fn saved_theme_of(contents: Option<Seq<char>>) -> Seq<char> {
    match contents {
        Some(s) => if crate::text::trim(s) == EMERALD@ {
            EMERALD@
        } else if crate::text::trim(s) == LIGHT@ {
            LIGHT@
        } else {
            FOREST@
        },
        None => FOREST@,
    }
}

/// Decides the theme from the contents of the saved setting, if it could be
/// read.
pub fn saved_theme(contents: Option<&str>) -> (r: &'static str)
    ensures
        r@ == saved_theme_of(
            match contents {
                Some(s) => Some(s@),
                None => None,
            },
        ),
{
    match contents {
        Some(s) => {
            let t = trimmed(s);
            if same_text(t.as_str(), EMERALD) {
                EMERALD
            } else if same_text(t.as_str(), LIGHT) {
                LIGHT
            } else {
                FOREST
            }
        },
        None => FOREST,
    }
}

/// A theme that is saved is read back unchanged.
pub proof fn law_saved_theme_round_trip(theme: Seq<char>)
    requires
        theme == FOREST@ || theme == EMERALD@ || theme == LIGHT@,
    ensures
        saved_theme_of(Some(theme)) == theme,
{
    reveal_strlit("forest");
    reveal_strlit("emerald");
    reveal_strlit("light");
    assert(crate::text::trim_start(theme) == theme);
    assert(crate::text::trim_end(theme) == theme);
}

/// Whatever the saved setting holds, one of the three themes is used.
pub proof fn law_saved_theme_is_known(contents: Option<Seq<char>>)
    ensures
        saved_theme_of(contents) == FOREST@ || saved_theme_of(contents) == EMERALD@
            || saved_theme_of(contents) == LIGHT@,
{
}

/// The editor scheme id of a theme.
pub open spec fn scheme_id_of(theme: Seq<char>) -> Seq<char> {
    if theme == EMERALD@ {
        "mark-hulk-emerald"@
    } else if theme == LIGHT@ {
        "mark-hulk-light"@
    } else {
        "mark-hulk-forest"@
    }
}

/// The editor scheme id of `theme`.
pub fn scheme_id(theme: &str) -> (r: &'static str)
    ensures
        r@ == scheme_id_of(theme@),
{
    if same_text(theme, EMERALD) {
        "mark-hulk-emerald"
    } else if same_text(theme, LIGHT) {
        "mark-hulk-light"
    } else {
        "mark-hulk-forest"
    }
}

/// The editor schemes tried for a theme, in order: its own scheme, then for
/// the light theme plain Adwaita, and for the dark themes the forest scheme
/// (when it is not already the theme's own) and then Adwaita-dark.
pub open spec fn scheme_candidates_of(theme: Seq<char>) -> Seq<Seq<char>> {
    if theme == LIGHT@ {
        seq![scheme_id_of(theme), "Adwaita"@]
    } else if scheme_id_of(theme) == "mark-hulk-forest"@ {
        seq![scheme_id_of(theme), "Adwaita-dark"@]
    } else {
        seq![scheme_id_of(theme), "mark-hulk-forest"@, "Adwaita-dark"@]
    }
}

/// The editor schemes to try for `theme`, in order; the first one installed
/// is used.
pub fn scheme_candidates(theme: &str) -> (r: Vec<&'static str>)
    ensures
        r@.map_values(|s: &'static str| s@) == scheme_candidates_of(theme@),
{
    let own = scheme_id(theme);
    let mut r: Vec<&'static str> = Vec::new();
    r.push(own);
    if is_light(theme) {
        r.push("Adwaita");
    } else {
        if !same_text(own, "mark-hulk-forest") {
            r.push("mark-hulk-forest");
        }
        r.push("Adwaita-dark");
    }
    assert(r@.map_values(|s: &'static str| s@) =~= scheme_candidates_of(theme@));
    r
}

} // verus!
