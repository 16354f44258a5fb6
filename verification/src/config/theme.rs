//! The theme: colors, and the palette that configuration files override.
use crate::agent::change;
use crate::text;
use vstd::prelude::*;
use vstd::string::*;

verus! {

/// A `[theme]` color value: `"#rgb"`, `"#rrggbb"`, or `"default"`/`"reset"`
/// to follow the terminal's own color.
#[derive(Debug, Clone, Copy, PartialEq, Eq, Structural)]
pub enum ThemeColor {
    Terminal,
    Rgb(u8, u8, u8),
}

/// The number that two digits of base sixteen stand for.
pub open spec fn channel_of(first: char, second: char) -> Option<nat> {
    match (text::hex_digit(first), text::hex_digit(second)) {
        (Some(high), Some(low)) => Some(16 * high + low),
        _ => None,
    }
}

/// Every character twice.
pub open spec fn doubled(s: Seq<char>) -> Seq<char>
    decreases s.len(),
{
    if s.len() == 0 {
        Seq::empty()
    } else {
        doubled(s.drop_last()).push(s.last()).push(s.last())
    }
}

/// The color of six digits.
pub open spec fn color_of_digits(digits: Seq<char>) -> Result<ThemeColor, Seq<char>> {
    let fault = "#"@ + digits + " contains a non-hex digit"@;
    if digits.len() != 6 {
        Err(fault)
    } else {
        match (
            channel_of(digits[0], digits[1]),
            channel_of(digits[2], digits[3]),
            channel_of(digits[4], digits[5]),
        ) {
            (Some(red), Some(green), Some(blue)) => Ok(
                ThemeColor::Rgb(red as u8, green as u8, blue as u8),
            ),
            _ => Err(fault),
        }
    }
}

/// The color that a text stands for, or what is wrong with it.
pub open spec fn color_of(value: Seq<char>) -> Result<ThemeColor, Seq<char>> {
    let value = text::trim(value);
    let word = text::ascii_lowercase(value);
    if word == "default"@ || word == "reset"@ {
        Ok(ThemeColor::Terminal)
    } else if value.len() == 0 || value[0] != '#' {
        Err(text::debug_quoted(value) + " is not a hex color like #7dcfff"@)
    } else {
        let digits = value.skip(1);
        if change::byte_len(digits) == 3 {
            color_of_digits(doubled(digits))
        } else if change::byte_len(digits) == 6 {
            color_of_digits(digits)
        } else {
            Err("#"@ + digits + " must have 3 or 6 hex digits, like #7df or #7dcfff"@)
        }
    }
}

fn channel(first: char, second: char) -> (r: Option<u8>)
    ensures
        match r {
            Some(n) => channel_of(first, second) == Some(n as nat),
            None => channel_of(first, second) is None,
        },
{
    match (text::hex_value(first), text::hex_value(second)) {
        (Some(high), Some(low)) => Some(16 * high + low),
        _ => None,
    }
}

fn double(chars: &Vec<char>, from: usize) -> (r: Vec<char>)
    requires
        from <= chars@.len(),
    ensures
        r@ == doubled(chars@.skip(from as int)),
{
    let ghost digits = chars@.skip(from as int);
    let mut r: Vec<char> = Vec::new();
    let mut i: usize = from;
    assert(digits.take(0) =~= Seq::<char>::empty());
    while i < chars.len()
        invariant
            from <= i <= chars@.len(),
            digits == chars@.skip(from as int),
            r@ == doubled(digits.take(i - from)),
        decreases chars@.len() - i,
    {
        assert(digits.take(i - from + 1).drop_last() =~= digits.take(i - from));
        assert(digits.take(i - from + 1).last() == chars@[i as int]);
        r.push(chars[i]);
        r.push(chars[i]);
        i = i + 1;
    }
    assert(digits.take(digits.len() as int) =~= digits);
    r
}

fn color_from_digits(digits: &Vec<char>) -> (r: Result<ThemeColor, String>)
    ensures
        match r {
            Ok(color) => color_of_digits(digits@) == Ok::<ThemeColor, Seq<char>>(color),
            Err(message) => color_of_digits(digits@) == Err::<ThemeColor, Seq<char>>(message@),
        },
{
    if digits.len() == 6 {
        match (
            channel(digits[0], digits[1]),
            channel(digits[2], digits[3]),
            channel(digits[4], digits[5]),
        ) {
            (Some(red), Some(green), Some(blue)) => {
                return Ok(ThemeColor::Rgb(red, green, blue));
            },
            _ => {},
        }
    }
    let shown = text::text_of(digits.as_slice());
    let mut message = "#".to_owned();
    message.append(shown.as_str());
    message.append(" contains a non-hex digit");
    Err(message)
}

impl ThemeColor {
    /// The color that a text stands for.
    pub fn parse(value: &str) -> (r: Result<ThemeColor, String>)
        ensures
            match r {
                Ok(color) => color_of(value@) == Ok::<ThemeColor, Seq<char>>(color),
                Err(message) => color_of(value@) == Err::<ThemeColor, Seq<char>>(message@),
            },
    {
        let value = text::trim_of(value);
        let word = text::ascii_lowercase_of(value.as_str());
        if text::same(word.as_str(), "default") || text::same(word.as_str(), "reset") {
            return Ok(ThemeColor::Terminal);
        }
        let chars = text::chars_of(value.as_str());
        if chars.len() == 0 || chars[0] != '#' {
            let quoted = text::debug_text(value.as_str());
            return Err(text::concat(quoted.as_str(), " is not a hex color like #7dcfff"));
        }
        let digits = text::text_range(chars.as_slice(), 1, chars.len());
        assert(digits@ =~= value@.skip(1));
        let length: usize = digits.as_str().as_bytes().len();
        if length == 3 {
            let expanded = double(&chars, 1);
            color_from_digits(&expanded)
        } else if length == 6 {
            let plain = text::chars_of(digits.as_str());
            color_from_digits(&plain)
        } else {
            let mut message = "#".to_owned();
            message.append(digits.as_str());
            message.append(" must have 3 or 6 hex digits, like #7df or #7dcfff");
            Err(message)
        }
    }
}

/// The project's value where it has one, else the global one.
pub open spec fn preferred<T>(project: Option<T>, global: Option<T>) -> Option<T> {
    match project {
        Some(value) => Some(value),
        None => global,
    }
}

/// The project's value where it has one, else the global one.
pub fn prefer<T>(project: Option<T>, global: Option<T>) -> (r: Option<T>)
    ensures
        r == preferred(project, global),
{
    match project {
        Some(value) => Some(value),
        None => global,
    }
}

/// `[theme]` palette overrides. Every key is optional; unset keys keep the
/// built-in defaults.
#[derive(Debug, Clone, Copy, PartialEq, Eq, Structural)]
pub struct ThemeConfig {
    pub background: Option<ThemeColor>,
    pub surface: Option<ThemeColor>,
    pub surface_hover: Option<ThemeColor>,
    pub surface_raised: Option<ThemeColor>,
    pub text: Option<ThemeColor>,
    pub text_strong: Option<ThemeColor>,
    pub text_dim: Option<ThemeColor>,
    pub text_faint: Option<ThemeColor>,
    pub gray_dim: Option<ThemeColor>,
    pub accent_primary: Option<ThemeColor>,
    pub accent_secondary: Option<ThemeColor>,
    pub accent_user: Option<ThemeColor>,
    pub accent_thinking: Option<ThemeColor>,
    pub accent_tool: Option<ThemeColor>,
    pub border: Option<ThemeColor>,
    pub border_active: Option<ThemeColor>,
    pub ok: Option<ThemeColor>,
    pub bad: Option<ThemeColor>,
    pub command: Option<ThemeColor>,
    pub running: Option<ThemeColor>,
    pub model_accent: Option<ThemeColor>,
    pub md_code: Option<ThemeColor>,
    pub code_bg: Option<ThemeColor>,
    pub diff_add_bg: Option<ThemeColor>,
    pub diff_del_bg: Option<ThemeColor>,
    pub wordmark_ink: Option<ThemeColor>,
}

/// A theme that overrides nothing.
pub open spec fn no_theme() -> ThemeConfig {
    ThemeConfig {
        background: None,
        surface: None,
        surface_hover: None,
        surface_raised: None,
        text: None,
        text_strong: None,
        text_dim: None,
        text_faint: None,
        gray_dim: None,
        accent_primary: None,
        accent_secondary: None,
        accent_user: None,
        accent_thinking: None,
        accent_tool: None,
        border: None,
        border_active: None,
        ok: None,
        bad: None,
        command: None,
        running: None,
        model_accent: None,
        md_code: None,
        code_bg: None,
        diff_add_bg: None,
        diff_del_bg: None,
        wordmark_ink: None,
    }
}

impl Default for ThemeConfig {
    fn default() -> (r: ThemeConfig)
        ensures
            r == no_theme(),
    {
        ThemeConfig {
            background: None,
            surface: None,
            surface_hover: None,
            surface_raised: None,
            text: None,
            text_strong: None,
            text_dim: None,
            text_faint: None,
            gray_dim: None,
            accent_primary: None,
            accent_secondary: None,
            accent_user: None,
            accent_thinking: None,
            accent_tool: None,
            border: None,
            border_active: None,
            ok: None,
            bad: None,
            command: None,
            running: None,
            model_accent: None,
            md_code: None,
            code_bg: None,
            diff_add_bg: None,
            diff_del_bg: None,
            wordmark_ink: None,
        }
    }
}

/// Project config wins key by key over the global config.
pub open spec fn merged_theme(global: ThemeConfig, project: ThemeConfig) -> ThemeConfig {
    ThemeConfig {
        background: preferred(project.background, global.background),
        surface: preferred(project.surface, global.surface),
        surface_hover: preferred(project.surface_hover, global.surface_hover),
        surface_raised: preferred(project.surface_raised, global.surface_raised),
        text: preferred(project.text, global.text),
        text_strong: preferred(project.text_strong, global.text_strong),
        text_dim: preferred(project.text_dim, global.text_dim),
        text_faint: preferred(project.text_faint, global.text_faint),
        gray_dim: preferred(project.gray_dim, global.gray_dim),
        accent_primary: preferred(project.accent_primary, global.accent_primary),
        accent_secondary: preferred(project.accent_secondary, global.accent_secondary),
        accent_user: preferred(project.accent_user, global.accent_user),
        accent_thinking: preferred(project.accent_thinking, global.accent_thinking),
        accent_tool: preferred(project.accent_tool, global.accent_tool),
        border: preferred(project.border, global.border),
        border_active: preferred(project.border_active, global.border_active),
        ok: preferred(project.ok, global.ok),
        bad: preferred(project.bad, global.bad),
        command: preferred(project.command, global.command),
        running: preferred(project.running, global.running),
        model_accent: preferred(project.model_accent, global.model_accent),
        md_code: preferred(project.md_code, global.md_code),
        code_bg: preferred(project.code_bg, global.code_bg),
        diff_add_bg: preferred(project.diff_add_bg, global.diff_add_bg),
        diff_del_bg: preferred(project.diff_del_bg, global.diff_del_bg),
        wordmark_ink: preferred(project.wordmark_ink, global.wordmark_ink),
    }
}

impl ThemeConfig {
    /// Project config wins key by key over the global config.
    pub fn merge(self, project: ThemeConfig) -> (r: ThemeConfig)
        ensures
            r == merged_theme(self, project),
    {
        ThemeConfig {
            background: prefer(project.background, self.background),
            surface: prefer(project.surface, self.surface),
            surface_hover: prefer(project.surface_hover, self.surface_hover),
            surface_raised: prefer(project.surface_raised, self.surface_raised),
            text: prefer(project.text, self.text),
            text_strong: prefer(project.text_strong, self.text_strong),
            text_dim: prefer(project.text_dim, self.text_dim),
            text_faint: prefer(project.text_faint, self.text_faint),
            gray_dim: prefer(project.gray_dim, self.gray_dim),
            accent_primary: prefer(project.accent_primary, self.accent_primary),
            accent_secondary: prefer(project.accent_secondary, self.accent_secondary),
            accent_user: prefer(project.accent_user, self.accent_user),
            accent_thinking: prefer(project.accent_thinking, self.accent_thinking),
            accent_tool: prefer(project.accent_tool, self.accent_tool),
            border: prefer(project.border, self.border),
            border_active: prefer(project.border_active, self.border_active),
            ok: prefer(project.ok, self.ok),
            bad: prefer(project.bad, self.bad),
            command: prefer(project.command, self.command),
            running: prefer(project.running, self.running),
            model_accent: prefer(project.model_accent, self.model_accent),
            md_code: prefer(project.md_code, self.md_code),
            code_bg: prefer(project.code_bg, self.code_bg),
            diff_add_bg: prefer(project.diff_add_bg, self.diff_add_bg),
            diff_del_bg: prefer(project.diff_del_bg, self.diff_del_bg),
            wordmark_ink: prefer(project.wordmark_ink, self.wordmark_ink),
        }
    }
}

/// `merged` is the project's value where it has one, and else the global one.
pub open spec fn wins<T>(merged: Option<T>, project: Option<T>, global: Option<T>) -> bool {
    &&& project is Some ==> merged == project
    &&& project is None ==> merged == global
}

/// The project's color counts for each key by itself: one that it gives is
/// taken, and for each that it does not give the global one is.
pub proof fn law_project_colors_win(global: ThemeConfig, project: ThemeConfig)
    ensures
        ({
            let merged = merged_theme(global, project);
            &&& wins(merged.background, project.background, global.background)
            &&& wins(merged.surface, project.surface, global.surface)
            &&& wins(merged.surface_hover, project.surface_hover, global.surface_hover)
            &&& wins(merged.surface_raised, project.surface_raised, global.surface_raised)
            &&& wins(merged.text, project.text, global.text)
            &&& wins(merged.text_strong, project.text_strong, global.text_strong)
            &&& wins(merged.text_dim, project.text_dim, global.text_dim)
            &&& wins(merged.text_faint, project.text_faint, global.text_faint)
            &&& wins(merged.gray_dim, project.gray_dim, global.gray_dim)
            &&& wins(merged.accent_primary, project.accent_primary, global.accent_primary)
            &&& wins(merged.accent_secondary, project.accent_secondary, global.accent_secondary)
            &&& wins(merged.accent_user, project.accent_user, global.accent_user)
            &&& wins(merged.accent_thinking, project.accent_thinking, global.accent_thinking)
            &&& wins(merged.accent_tool, project.accent_tool, global.accent_tool)
            &&& wins(merged.border, project.border, global.border)
            &&& wins(merged.border_active, project.border_active, global.border_active)
            &&& wins(merged.ok, project.ok, global.ok)
            &&& wins(merged.bad, project.bad, global.bad)
            &&& wins(merged.command, project.command, global.command)
            &&& wins(merged.running, project.running, global.running)
            &&& wins(merged.model_accent, project.model_accent, global.model_accent)
            &&& wins(merged.md_code, project.md_code, global.md_code)
            &&& wins(merged.code_bg, project.code_bg, global.code_bg)
            &&& wins(merged.diff_add_bg, project.diff_add_bg, global.diff_add_bg)
            &&& wins(merged.diff_del_bg, project.diff_del_bg, global.diff_del_bg)
            &&& wins(merged.wordmark_ink, project.wordmark_ink, global.wordmark_ink)
        }),
{
}

proof fn lemma_hex_pair(n: nat)
    requires
        n < 256,
    ensures
        channel_of(text::hex_char(n / 16), text::hex_char(n % 16)) == Some(n),
{
    assert(text::hex_digit(text::hex_char(n / 16)) == Some(n / 16));
    assert(text::hex_digit(text::hex_char(n % 16)) == Some(n % 16));
}

/// Six hexadecimal digits are the color of the three numbers that they stand
/// for, two digits each.
pub proof fn law_colors_are_read(red: nat, green: nat, blue: nat)
    requires
        red < 256,
        green < 256,
        blue < 256,
    ensures
        color_of_digits(
            seq![
                text::hex_char(red / 16),
                text::hex_char(red % 16),
                text::hex_char(green / 16),
                text::hex_char(green % 16),
                text::hex_char(blue / 16),
                text::hex_char(blue % 16),
            ],
        ) == Ok::<ThemeColor, Seq<char>>(ThemeColor::Rgb(red as u8, green as u8, blue as u8)),
{
    lemma_hex_pair(red);
    lemma_hex_pair(green);
    lemma_hex_pair(blue);
}

/// Three digits stand for six: each of them twice.
pub proof fn law_short_colors_are_doubled(a: char, b: char, c: char)
    ensures
        doubled(seq![a, b, c]) == seq![a, a, b, b, c, c],
{
    reveal_with_fuel(doubled, 4);
    let three = seq![a, b, c];
    assert(three.drop_last() =~= seq![a, b]);
    assert(seq![a, b].drop_last() =~= seq![a]);
    assert(seq![a].drop_last() =~= Seq::<char>::empty());
    assert(doubled(three) =~= seq![a, a, b, b, c, c]);
}

} // verus!
