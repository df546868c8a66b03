//! Pure settings data: themes, keybinding modes, and the recent-file list
//! logic. Reading and writing the preference store is the caller's concern.
use vstd::prelude::*;

verus! {

/// A color theme choice; `Custom` indexes into the loaded custom themes.
#[derive(Clone, Copy, Debug, PartialEq, Eq, Structural)]
pub enum Theme {
    System,
    Dark,
    Light,
    Monokai,
    Solarized,
    Nord,
    Dracula,
    Catppuccin,
    Custom(usize),
}

pub open spec fn spec_theme_name(t: Theme) -> Seq<char> {
    match t {
        Theme::System => "System"@,
        Theme::Dark => "Dark"@,
        Theme::Light => "Light"@,
        Theme::Monokai => "Monokai"@,
        Theme::Solarized => "Solarized"@,
        Theme::Nord => "Nord"@,
        Theme::Dracula => "Dracula"@,
        Theme::Catppuccin => "Catppuccin"@,
        Theme::Custom(_) => "Custom"@,
    }
}

impl Theme {
    /// Every builtin theme, in presentation order.
    pub fn builtin_all() -> (r: Vec<Theme>)
        ensures
            r@ == seq![
                Theme::System,
                Theme::Dark,
                Theme::Light,
                Theme::Monokai,
                Theme::Solarized,
                Theme::Nord,
                Theme::Dracula,
                Theme::Catppuccin,
            ],
    {
        let mut r: Vec<Theme> = Vec::new();
        r.push(Theme::System);
        r.push(Theme::Dark);
        r.push(Theme::Light);
        r.push(Theme::Monokai);
        r.push(Theme::Solarized);
        r.push(Theme::Nord);
        r.push(Theme::Dracula);
        r.push(Theme::Catppuccin);
        proof {
            assert(r@ =~= seq![
                Theme::System,
                Theme::Dark,
                Theme::Light,
                Theme::Monokai,
                Theme::Solarized,
                Theme::Nord,
                Theme::Dracula,
                Theme::Catppuccin,
            ]);
        }
        r
    }

    pub fn name(&self) -> (r: &'static str)
        ensures
            r@ == spec_theme_name(*self),
    {
        match self {
            Theme::System => "System",
            Theme::Dark => "Dark",
            Theme::Light => "Light",
            Theme::Monokai => "Monokai",
            Theme::Solarized => "Solarized",
            Theme::Nord => "Nord",
            Theme::Dracula => "Dracula",
            Theme::Catppuccin => "Catppuccin",
            Theme::Custom(_) => "Custom",
        }
    }
}

/// Custom theme definition, loadable from theme files by the caller.
#[derive(Clone, Debug)]
pub struct CustomTheme {
    pub name: String,
    pub bg_primary: [u8; 3],
    pub bg_secondary: [u8; 3],
    pub text_primary: [u8; 3],
    pub text_secondary: [u8; 3],
    pub accent: [u8; 3],
    pub selection: [u8; 3],
    pub border: [u8; 3],
    pub stripe: Option<[u8; 3]>,
}

impl Default for CustomTheme {
    /// A dark default palette.
    fn default() -> (r: Self)
        ensures
            r.name@ == "Custom"@,
            r.bg_primary@ == seq![30u8, 30u8, 46u8],
            r.bg_secondary@ == seq![49u8, 50u8, 68u8],
            r.text_primary@ == seq![205u8, 214u8, 244u8],
            r.text_secondary@ == seq![166u8, 173u8, 200u8],
            r.accent@ == seq![203u8, 166u8, 247u8],
            r.selection@ == seq![69u8, 71u8, 90u8],
            r.border@ == seq![88u8, 91u8, 112u8],
            r.stripe is None,
    {
        let r = CustomTheme {
            name: String::from_str("Custom"),
            bg_primary: [30, 30, 46],
            bg_secondary: [49, 50, 68],
            text_primary: [205, 214, 244],
            text_secondary: [166, 173, 200],
            accent: [203, 166, 247],
            selection: [69, 71, 90],
            border: [88, 91, 112],
            stripe: None,
        };
        proof {
            assert(r.bg_primary@ =~= seq![30u8, 30u8, 46u8]);
            assert(r.bg_secondary@ =~= seq![49u8, 50u8, 68u8]);
            assert(r.text_primary@ =~= seq![205u8, 214u8, 244u8]);
            assert(r.text_secondary@ =~= seq![166u8, 173u8, 200u8]);
            assert(r.accent@ =~= seq![203u8, 166u8, 247u8]);
            assert(r.selection@ =~= seq![69u8, 71u8, 90u8]);
            assert(r.border@ =~= seq![88u8, 91u8, 112u8]);
        }
        r
    }
}

/// Keybinding mode: traditional shortcuts, or modal keyboard-first editing.
#[derive(Clone, Copy, Debug, PartialEq, Eq, Structural)]
pub enum KeybindingMode {
    Standard,
    Vim,
}

pub open spec fn spec_keybinding_name(m: KeybindingMode) -> Seq<char> {
    match m {
        KeybindingMode::Standard => "Standard"@,
        KeybindingMode::Vim => "Vim"@,
    }
}

impl KeybindingMode {
    pub fn name(&self) -> (r: &'static str)
        ensures
            r@ == spec_keybinding_name(*self),
    {
        match self {
            KeybindingMode::Standard => "Standard",
            KeybindingMode::Vim => "Vim",
        }
    }
}

impl Default for KeybindingMode {
    fn default() -> (r: Self)
        ensures
            r == KeybindingMode::Standard,
    {
        KeybindingMode::Standard
    }
}

/// The default bound on the recent-file list.
pub fn default_max_recent() -> (r: usize)
    ensures
        r == 10,
{
    10
}

/// The default editor font family.
pub fn default_font() -> (r: String)
    ensures
        r@ == "JetBrains Mono"@,
{
    String::from_str("JetBrains Mono")
}

/// The entries of `rs` whose text differs from `p`, in order.
pub open spec fn without_path(rs: Seq<Seq<char>>, p: Seq<char>) -> Seq<Seq<char>>
    decreases rs.len(),
{
    if rs.len() == 0 {
        Seq::empty()
    } else {
        without_path(rs.drop_last(), p) + (if rs.last() != p {
            seq![rs.last()]
        } else {
            Seq::empty()
        })
    }
}

/// The recent-file list after `p` is used: `p` moves to the front, an old
/// occurrence is dropped, and the list is cut to `max` entries.
pub open spec fn recent_after(rs: Seq<Seq<char>>, p: Seq<char>, max: int) -> Seq<Seq<char>> {
    let kept = seq![p] + without_path(rs, p);
    if kept.len() <= max {
        kept
    } else {
        kept.take(max)
    }
}

/// Record a path at the front of a recent-file list, deduplicated and
/// bounded.
pub fn push_recent_file(recent: &mut Vec<String>, path: &str, max: usize)
    ensures
        final(recent).deep_view() == recent_after(old(recent).deep_view(), path@, max as int),
{
    let p = String::from_str(path);
    let p_cmp = String::from_str(path);
    let mut out: Vec<String> = Vec::new();
    out.push(p);
    let ghost rs = recent.deep_view();
    let n = recent.len();
    let mut i: usize = 0;
    proof {
        assert(out.deep_view() =~= seq![path@] + without_path(rs.take(0), path@));
    }
    while i < n
        invariant
            i <= n,
            n == recent@.len(),
            rs == old(recent).deep_view(),
            recent == old(recent),
            out.deep_view() == seq![path@] + without_path(rs.take(i as int), path@),
        decreases n - i,
    {
        proof {
            assert(rs.take(i as int + 1).drop_last() =~= rs.take(i as int));
            assert(rs.take(i as int + 1).last() == rs[i as int]);
        }
        let keep = !(recent[i] == p_cmp);
        if keep {
            let ghost prev = out.deep_view();
            out.push(recent[i].clone());
            proof {
                assert(out.deep_view() =~= prev.push(rs[i as int]));
                assert(prev.push(rs[i as int]) =~= prev + seq![rs[i as int]]);
                assert(out.deep_view() =~= seq![path@] + without_path(
                    rs.take(i as int + 1),
                    path@,
                ));
            }
        } else {
            proof {
                assert(without_path(rs.take(i as int + 1), path@) =~= without_path(
                    rs.take(i as int),
                    path@,
                ));
            }
        }
        i += 1;
    }
    proof {
        assert(rs.take(n as int) =~= rs);
    }
    if out.len() > max {
        let ghost pre = out.deep_view();
        out.truncate(max);
        proof {
            assert(out.deep_view() =~= pre.take(max as int));
        }
    }
    *recent = out;
}

} // verus!
