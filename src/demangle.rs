//! Human-readable symbol names.
use vstd::prelude::*;

verus! {

/// Legacy-mangled names keep a `::h` + 16 hex digit hash after demangling.
pub const HASH_SUFFIX_PATTERN: &'static str = ".*::[a-z0-9]{17}$";

/// Number of characters of the hash suffix, including its `::` separator.
pub const HASH_SUFFIX_LEN: usize = 19;

/// What `rustc_demangle` prints for a symbol.
pub uninterp spec fn demangled(symbol: Seq<char>) -> Seq<char>;

pub open spec fn is_hash_char(c: char) -> bool {
    ('a' <= c && c <= 'z') || ('0' <= c && c <= '9')
}

/// `s` ends with `::` followed by seventeen lowercase letters or digits.
pub open spec fn has_hash_suffix(s: Seq<char>) -> bool {
    &&& s.len() >= 19
    &&& s[s.len() - 19] == ':'
    &&& s[s.len() - 18] == ':'
    &&& forall|i: int| s.len() - 17 <= i < s.len() ==> is_hash_char(#[trigger] s[i])
}

pub open spec fn strip_hash_suffix(s: Seq<char>) -> Seq<char> {
    if has_hash_suffix(s) {
        s.subrange(0, s.len() - 19)
    } else {
        s
    }
}

/// The name under which a symbol is displayed.
pub open spec fn display_name(symbol: Seq<char>) -> Seq<char> {
    strip_hash_suffix(demangled(symbol))
}

/// Relies on `rustc_demangle::demangle` and its `Display` impl: the result is
/// a function of the symbol alone.
#[verifier::external_body]
fn demangle_symbol(symbol: &str) -> (r: String)
    ensures
        r@ == demangled(symbol@),
{
    rustc_demangle::demangle(symbol).to_string()
}

/// Relies on `regex::Regex::new` and `Regex::is_match`: compiles `pattern`
/// (`None` if it is not a valid regex) and reports whether it matches
/// somewhere in `text`. The pattern `.*::[a-z0-9]{17}$` is valid, and as
/// `.*` may match nothing and `$` is the end of the text, it matches exactly
/// the texts that end in `::` and seventeen ASCII lowercase letters or digits.
#[verifier::external_body]
fn regex_is_match(pattern: &str, text: &str) -> (r: Option<bool>)
    ensures
        pattern@ == HASH_SUFFIX_PATTERN@ ==> r == Some(has_hash_suffix(text@)),
{
    regex::Regex::new(pattern).ok().map(|re| re.is_match(text))
}

/// Removes the `::h<hash>` disambiguator that the legacy mangling scheme
/// leaves at the end of a demangled name; other names are returned as they are.
pub fn strip_hash_suffix_of(name: String) -> (r: String)
    ensures
        r@ == strip_hash_suffix(name@),
{
    // Shorter names cannot end in a hash; they need no regex.
    if name.as_str().unicode_len() < HASH_SUFFIX_LEN {
        return name;
    }
    let matched = regex_is_match(HASH_SUFFIX_PATTERN, name.as_str());
    match matched {
        Some(true) => {
            let len = name.as_str().unicode_len();
            let kept = name.as_str().substring_char(0, len - HASH_SUFFIX_LEN);
            String::from_str(kept)
        },
        _ => name,
    }
}

/// Demangles a compiled symbol name for display.
pub fn demangle(function: &str) -> (r: String)
    ensures
        r@ == display_name(function@),
{
    strip_hash_suffix_of(demangle_symbol(function))
}

} // verus!
