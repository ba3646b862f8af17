//! The syntax resolution cache: a read-only registry of lexer and theme
//! tables, loaded once per process and shared by reference across renders.
//! Resolution order is exact token, then file extension, then plain text.

use vstd::prelude::*;

verus! {

#[verifier::external_type_specification]
#[verifier::external_body]
pub struct ExSyntaxSet(syntect::parsing::SyntaxSet);

#[verifier::external_type_specification]
#[verifier::external_body]
pub struct ExThemeSet(syntect::highlighting::ThemeSet);

/// The lexer and theme tables. Loaded by `new` and never mutated; the caller
/// keeps one instance per process (behind a one-time-init guard) and hands
/// it to every render by reference.
pub struct SyntaxCache {
    syntax_set: syntect::parsing::SyntaxSet,
    theme_set: syntect::highlighting::ThemeSet,
}

/// Whether a language token resolves to a known lexer, by exact token and
/// then by file extension.
pub uninterp spec fn lang_known(token: Seq<char>) -> bool;

/// The ANSI-decorated form of one code line under a resolved language token.
pub uninterp spec fn highlight_spec(lang: Seq<char>, line: Seq<char>) -> Seq<char>;

/// A character that an ANSI color escape sequence may contain.
pub open spec fn is_sgr_char(c: char) -> bool {
    c == '\u{1b}' || c == '[' || c == ';' || c == 'm' || ('0' <= c && c <= '9')
}

impl SyntaxCache {
    /// Relies on syntect's `SyntaxSet::load_defaults_newlines` and
    /// `ThemeSet::load_defaults`: the default tables embedded in the crate.
    #[verifier::external_body]
    pub fn new() -> SyntaxCache {
        SyntaxCache {
            syntax_set: syntect::parsing::SyntaxSet::load_defaults_newlines(),
            theme_set: syntect::highlighting::ThemeSet::load_defaults(),
        }
    }

    /// Relies on syntect's `find_syntax_by_token` and
    /// `find_syntax_by_extension`: whether a token resolves depends on the
    /// token and the fixed default tables alone.
    #[verifier::external_body]
    pub fn resolves(&self, token: &Vec<char>) -> (r: bool)
        ensures
            r == lang_known(token@),
    {
        let t: String = token.iter().collect();
        self.syntax_set.find_syntax_by_token(&t).or_else(
            || self.syntax_set.find_syntax_by_extension(&t),
        ).is_some()
    }

    /// Relies on syntect's `HighlightLines::highlight_line` and
    /// `as_24_bit_terminal_escaped`: the output interleaves ANSI color
    /// escapes with the spans of the line, whose concatenation is the line
    /// itself, and depends only on the token, the line and the fixed default
    /// tables; a failing lexer leaves the line unstyled.
    #[verifier::external_body]
    pub fn highlight_line(&self, lang: &Vec<char>, line: &Vec<char>) -> (r: Vec<char>)
        requires
            lang_known(lang@),
        ensures
            r@ == highlight_spec(lang@, line@),
            forall|i: int| 0 <= i < r@.len() ==> line@.contains(r@[i]) || is_sgr_char(r@[i]),
    {
        let t: String = lang.iter().collect();
        let text: String = line.iter().collect();
        let syntax = self.syntax_set.find_syntax_by_token(&t).or_else(
            || self.syntax_set.find_syntax_by_extension(&t),
        ).unwrap_or_else(|| self.syntax_set.find_syntax_plain_text());
        let theme = match self.theme_set.themes.get("base16-ocean.dark") {
            Some(th) => th,
            None => return text.chars().collect(),
        };
        let mut hl = syntect::easy::HighlightLines::new(syntax, theme);
        match hl.highlight_line(&text, &self.syntax_set) {
            Ok(spans) => syntect::util::as_24_bit_terminal_escaped(&spans, false).chars().collect(),
            Err(_) => text.chars().collect(),
        }
    }
}

} // verus!
