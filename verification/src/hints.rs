//! Deriving a best-guess language token from free text: the first keyword of
//! a fixed table that occurs in the lower-cased input wins; failing that, a
//! few generic programming words fall back to the plain token.

use vstd::prelude::*;
use crate::chars::{
    chars_of_str, string_of_chars, lower_spec, lower_chars, contains_seq, contains_sub,
};

verus! {

/// The keyword table, in priority order: an input containing the keyword on
/// the left is guessed to speak about the language token on the right.
pub open spec fn hint_pairs() -> Seq<(Seq<char>, Seq<char>)> {
    seq![
        ("rust"@, "rust"@),
        ("cpp"@, "cpp"@),
        ("c++"@, "cpp"@),
        ("c#"@, "cs"@),
        ("csharp"@, "cs"@),
        ("c lang"@, "c"@),
        (" c "@, "c"@),
        ("objective-c"@, "objc"@),
        ("objc"@, "objc"@),
        ("assembly"@, "asm"@),
        ("asm"@, "asm"@),
        ("javascript"@, "javascript"@),
        ("js"@, "javascript"@),
        ("typescript"@, "typescript"@),
        ("ts"@, "typescript"@),
        ("html"@, "html"@),
        ("css"@, "css"@),
        ("scss"@, "scss"@),
        ("sass"@, "scss"@),
        ("less"@, "less"@),
        ("php"@, "php"@),
        ("webassembly"@, "wasm"@),
        ("wasm"@, "wasm"@),
        ("python"@, "python"@),
        ("py"@, "python"@),
        ("ruby"@, "ruby"@),
        ("perl"@, "perl"@),
        ("lua"@, "lua"@),
        ("powershell"@, "powershell"@),
        ("ps1"@, "powershell"@),
        ("shell"@, "shell"@),
        ("bash"@, "shell"@),
        ("zsh"@, "shell"@),
        ("fish"@, "shell"@),
    ]
}

/// The generic fallback: inputs that speak of code at all resolve to the
/// plain token.
pub open spec fn generic_hint(low: Seq<char>) -> Option<Seq<char>> {
    if contains_seq(low, "code"@) || contains_seq(low, "function"@) || contains_seq(
        low,
        "program"@,
    ) || contains_seq(low, "algorithm"@) || contains_seq(low, "class"@) || contains_seq(
        low,
        "method"@,
    ) {
        Some("txt"@)
    } else {
        None
    }
}

pub open spec fn hint_scan(pairs: Seq<(Seq<char>, Seq<char>)>, low: Seq<char>) -> Option<
    Seq<char>,
>
    decreases pairs.len(),
{
    if pairs.len() == 0 {
        generic_hint(low)
    } else if contains_seq(low, pairs[0].0) {
        Some(pairs[0].1)
    } else {
        hint_scan(pairs.drop_first(), low)
    }
}

/// The hint the keyword table derives from an input, over its lower-cased
/// form.
pub open spec fn hint_of(s: Seq<char>) -> Option<Seq<char>> {
    hint_scan(hint_pairs(), lower_spec(s))
}

fn hint_table() -> (r: Vec<(Vec<char>, Vec<char>)>)
    ensures
        r@.len() == hint_pairs().len(),
        forall|i: int|
            0 <= i < r@.len() ==> (#[trigger] r@[i]).0@ == hint_pairs()[i].0 && r@[i].1@
                == hint_pairs()[i].1,
{
    let mut r: Vec<(Vec<char>, Vec<char>)> = Vec::new();
    r.push((chars_of_str("rust"), chars_of_str("rust")));
    r.push((chars_of_str("cpp"), chars_of_str("cpp")));
    r.push((chars_of_str("c++"), chars_of_str("cpp")));
    r.push((chars_of_str("c#"), chars_of_str("cs")));
    r.push((chars_of_str("csharp"), chars_of_str("cs")));
    r.push((chars_of_str("c lang"), chars_of_str("c")));
    r.push((chars_of_str(" c "), chars_of_str("c")));
    r.push((chars_of_str("objective-c"), chars_of_str("objc")));
    r.push((chars_of_str("objc"), chars_of_str("objc")));
    r.push((chars_of_str("assembly"), chars_of_str("asm")));
    r.push((chars_of_str("asm"), chars_of_str("asm")));
    r.push((chars_of_str("javascript"), chars_of_str("javascript")));
    r.push((chars_of_str("js"), chars_of_str("javascript")));
    r.push((chars_of_str("typescript"), chars_of_str("typescript")));
    r.push((chars_of_str("ts"), chars_of_str("typescript")));
    r.push((chars_of_str("html"), chars_of_str("html")));
    r.push((chars_of_str("css"), chars_of_str("css")));
    r.push((chars_of_str("scss"), chars_of_str("scss")));
    r.push((chars_of_str("sass"), chars_of_str("scss")));
    r.push((chars_of_str("less"), chars_of_str("less")));
    r.push((chars_of_str("php"), chars_of_str("php")));
    r.push((chars_of_str("webassembly"), chars_of_str("wasm")));
    r.push((chars_of_str("wasm"), chars_of_str("wasm")));
    r.push((chars_of_str("python"), chars_of_str("python")));
    r.push((chars_of_str("py"), chars_of_str("python")));
    r.push((chars_of_str("ruby"), chars_of_str("ruby")));
    r.push((chars_of_str("perl"), chars_of_str("perl")));
    r.push((chars_of_str("lua"), chars_of_str("lua")));
    r.push((chars_of_str("powershell"), chars_of_str("powershell")));
    r.push((chars_of_str("ps1"), chars_of_str("powershell")));
    r.push((chars_of_str("shell"), chars_of_str("shell")));
    r.push((chars_of_str("bash"), chars_of_str("shell")));
    r.push((chars_of_str("zsh"), chars_of_str("shell")));
    r.push((chars_of_str("fish"), chars_of_str("shell")));
    r
}

/// Guesses the language an input speaks about: the first keyword match in
/// table order, else the plain token for generic programming words, else
/// nothing.
pub fn extract_language_hint(input: &str) -> (r: Option<String>)
    ensures
        (r is Some) == (hint_of(input@) is Some),
        r matches Some(h) ==> hint_of(input@) == Some(h@),
{
    let chars = chars_of_str(input);
    let low = lower_chars(&chars);
    let table = hint_table();
    let n = table.len();
    let mut i: usize = 0;
    proof {
        assert(hint_pairs().skip(0) =~= hint_pairs());
    }
    while i < n
        invariant
            0 <= i <= n,
            n == table@.len(),
            n == hint_pairs().len(),
            low@ == lower_spec(input@),
            forall|t: int|
                0 <= t < n ==> (#[trigger] table@[t]).0@ == hint_pairs()[t].0 && table@[t].1@
                    == hint_pairs()[t].1,
            hint_of(input@) == hint_scan(hint_pairs().skip(i as int), low@),
        decreases n - i,
    {
        proof {
            assert(hint_pairs().skip(i as int)[0] == hint_pairs()[i as int]);
            assert(hint_pairs().skip(i as int).drop_first() =~= hint_pairs().skip(i + 1));
        }
        if contains_sub(&low, &table[i].0) {
            let out = string_of_chars(&table[i].1);
            proof {
                assert(hint_of(input@) == Some(hint_pairs()[i as int].1));
            }
            return Some(out);
        }
        i = i + 1;
    }
    proof {
        assert(hint_pairs().skip(n as int).len() == 0);
        assert(hint_of(input@) == generic_hint(low@));
    }
    let code_kw = chars_of_str("code");
    let function_kw = chars_of_str("function");
    let program_kw = chars_of_str("program");
    let algorithm_kw = chars_of_str("algorithm");
    let class_kw = chars_of_str("class");
    let method_kw = chars_of_str("method");
    if contains_sub(&low, &code_kw) || contains_sub(&low, &function_kw) || contains_sub(
        &low,
        &program_kw,
    ) || contains_sub(&low, &algorithm_kw) || contains_sub(&low, &class_kw) || contains_sub(
        &low,
        &method_kw,
    ) {
        let txt = chars_of_str("txt");
        return Some(string_of_chars(&txt));
    }
    None
}

} // verus!
