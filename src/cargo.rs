//! What the build wrapper decides: the arguments and flags passed to cargo,
//! whether rustc supports writing remarks to a directory, where the
//! toolchain's sources are.
use crate::remark::{RustcSourceRoot, join_path, join_path_of};
use crate::text::{push_char, text_eq};
use vstd::prelude::*;

verus! {

/// How cargo is run.
pub enum CargoSubcommand {
    /// `cargo build --release` with the given arguments.
    Build,
    /// A cargo command given in full.
    Wrap,
}

/// Directories of one build.
pub struct BuildOutput {
    pub web_dir: String,
    pub source_dir: String,
    pub yaml_dir: String,
}

/// Arguments for `cargo build`, without the ones that are always passed.
pub struct CargoArgs {
    pub filtered: Vec<String>,
}

/// The argument that is always passed to `cargo build`.
pub const RELEASE_ARG: &'static str = "--release";

/// The arguments other than `--release`, in order.
pub open spec fn without_release(args: Seq<Seq<char>>) -> Seq<Seq<char>>
    decreases args.len(),
{
    if args.len() == 0 {
        Seq::empty()
    } else {
        let rest = without_release(args.drop_last());
        if args.last() == RELEASE_ARG@ {
            rest
        } else {
            rest.push(args.last())
        }
    }
}

pub open spec fn strings_of(v: Seq<String>) -> Seq<Seq<char>> {
    v.map_values(|s: String| s@)
}

/// Drops `--release`, which is passed anyway.
pub fn parse_cargo_args(cargo_args: Vec<String>) -> (r: CargoArgs)
    ensures
        strings_of(r.filtered@) == without_release(strings_of(cargo_args@)),
{
    let mut filtered: Vec<String> = Vec::new();
    let mut i: usize = 0;
    while i < cargo_args.len()
        invariant
            i <= cargo_args@.len(),
            strings_of(filtered@) == without_release(strings_of(cargo_args@.subrange(0, i as int))),
        decreases cargo_args@.len() - i,
    {
        assert(strings_of(cargo_args@.subrange(0, i as int + 1)).drop_last() =~= strings_of(
            cargo_args@.subrange(0, i as int),
        ));
        if !text_eq(cargo_args[i].as_str(), RELEASE_ARG) {
            let ghost f0 = filtered@;
            filtered.push(cargo_args[i].clone());
            assert(strings_of(filtered@) =~= strings_of(f0).push(cargo_args@[i as int]@));
        }
        i += 1;
    }
    assert(cargo_args@.subrange(0, cargo_args@.len() as int) =~= cargo_args@);
    CargoArgs { filtered }
}

/// Separator of the entries of `CARGO_ENCODED_RUSTFLAGS`.
pub const FLAG_SEPARATOR: char = '\u{1f}';

/// The rustc flags that make it write remarks, with debug info, to `dir`.
pub open spec fn remark_flags_for(dir: Seq<char>) -> Seq<char> {
    "-Cremark=all"@.push(FLAG_SEPARATOR) + "-Zremark-dir="@ + dir + seq![FLAG_SEPARATOR] + "-Cdebuginfo=1"@
}

pub fn remark_flags(yaml_dir: &str) -> (r: String)
    ensures
        r@ == remark_flags_for(yaml_dir@),
{
    let mut flags = String::from_str("-Cremark=all");
    push_char(&mut flags, FLAG_SEPARATOR);
    flags.append("-Zremark-dir=");
    flags.append(yaml_dir);
    push_char(&mut flags, FLAG_SEPARATOR);
    flags.append("-Cdebuginfo=1");
    assert(flags@ =~= remark_flags_for(yaml_dir@));
    flags
}

/// `flags` added to the encoded rustflags already set.
pub open spec fn extended_rustflags(existing: Seq<char>, flags: Seq<char>) -> Seq<char> {
    if existing.len() > 0 {
        existing.push(FLAG_SEPARATOR) + flags
    } else {
        flags
    }
}

pub fn extend_rustflags(existing: String, flags: &str) -> (r: String)
    ensures
        r@ == extended_rustflags(existing@, flags@),
{
    let mut rustflags = existing;
    if rustflags.as_str().unicode_len() > 0 {
        push_char(&mut rustflags, FLAG_SEPARATOR);
    }
    rustflags.append(flags);
    rustflags
}

// ---------------------------------------------------------------------------
// `rustc -Z help`.

/// White space, as `char::is_whitespace` has it.
pub open spec fn is_space(c: char) -> bool {
    c == ' ' || ('\u{9}' <= c && c <= '\u{d}') || c == '\u{85}' || c == '\u{a0}' || c == '\u{1680}'
        || ('\u{2000}' <= c && c <= '\u{200a}') || c == '\u{2028}' || c == '\u{2029}' || c == '\u{202f}'
        || c == '\u{205f}' || c == '\u{3000}'
}

/// The words of each line, from position `i` on: `words` holds the finished
/// words of the current line, `cur` the word being read, `lines` the words of
/// the finished lines.
pub open spec fn scan_words(
    s: Seq<char>,
    i: int,
    cur: Seq<char>,
    words: Seq<Seq<char>>,
    lines: Seq<Seq<Seq<char>>>,
) -> Seq<Seq<Seq<char>>>
    decreases s.len() - i,
{
    let words_done = if cur.len() > 0 { words.push(cur) } else { words };
    if i < 0 || i >= s.len() {
        lines.push(words_done)
    } else if s[i] == '\n' {
        scan_words(s, i + 1, Seq::empty(), Seq::empty(), lines.push(words_done))
    } else if is_space(s[i]) {
        scan_words(s, i + 1, Seq::empty(), words_done, lines)
    } else {
        scan_words(s, i + 1, cur.push(s[i]), words, lines)
    }
}

/// The words of each line of a text.
pub open spec fn line_words(s: Seq<char>) -> Seq<Seq<Seq<char>>> {
    scan_words(s, 0, Seq::empty(), Seq::empty(), Seq::empty())
}

/// A line lists the option: its first two words are `-Z` and `remark-dir=val`.
pub open spec fn lists_remark_dir(words: Seq<Seq<char>>) -> bool {
    words.len() >= 2 && words[0] == "-Z"@ && words[1] == "remark-dir=val"@
}

/// Whether the output of `rustc -Z help` lists `-Z remark-dir`.
pub open spec fn supports_remark_dir(help: Seq<char>) -> bool {
    exists|k: int| 0 <= k < line_words(help).len() && lists_remark_dir(#[trigger] line_words(help)[k])
}

/// Whether the output of `rustc -Z help` lists `-Z remark-dir`.
pub fn check_remark_dir_support(help: &str) -> (r: bool)
    ensures
        r == supports_remark_dir(help@),
{
    let n = help.unicode_len();
    let mut found = false;
    let mut cur = String::new();
    let mut count: usize = 0;
    let mut first = String::new();
    let mut second = String::new();
    let ghost mut words: Seq<Seq<char>> = Seq::empty();
    let ghost mut lines: Seq<Seq<Seq<char>>> = Seq::empty();
    let mut i: usize = 0;
    while i < n
        invariant
            i <= n,
            n == help@.len(),
            line_words(help@) == scan_words(help@, i as int, cur@, words, lines),
            count == (if words.len() < 2 { words.len() } else { 2 }),
            count >= 1 ==> first@ == words[0],
            count >= 2 ==> second@ == words[1],
            found == exists|k: int| 0 <= k < lines.len() && lists_remark_dir(#[trigger] lines[k]),
        decreases n - i,
    {
        let c = help.get_char(i);
        let ghost (cur0, words0, lines0) = (cur@, words, lines);
        let ghost words_done = if cur0.len() > 0 { words0.push(cur0) } else { words0 };
        if c == '\n' || is_space_char(c) {
            if cur.as_str().unicode_len() > 0 {
                proof {
                    words = words.push(cur@);
                }
                if count == 0 {
                    first = cur;
                    count = 1;
                } else if count == 1 {
                    second = cur;
                    count = 2;
                }
                cur = String::new();
            }
            if c == '\n' {
                let hit = count == 2 && text_eq(first.as_str(), "-Z") && text_eq(second.as_str(), "remark-dir=val");
                assert(hit == lists_remark_dir(words));
                proof {
                    lines = lines.push(words);
                    words = Seq::empty();
                }
                if hit {
                    assert(lists_remark_dir(lines[lines0.len() as int]));
                    found = true;
                }
                assert(found == exists|k: int| 0 <= k < lines.len() && lists_remark_dir(#[trigger] lines[k])) by {
                    if exists|k: int| 0 <= k < lines.len() && lists_remark_dir(#[trigger] lines[k]) {
                        let k = choose|k: int| 0 <= k < lines.len() && lists_remark_dir(#[trigger] lines[k]);
                        if k < lines0.len() {
                            assert(lines[k] == lines0[k]);
                        }
                    }
                    if exists|k: int| 0 <= k < lines0.len() && lists_remark_dir(#[trigger] lines0[k]) {
                        let k = choose|k: int| 0 <= k < lines0.len() && lists_remark_dir(#[trigger] lines0[k]);
                        assert(lines[k] == lines0[k]);
                    }
                }
                count = 0;
                assert(scan_words(help@, i as int, cur0, words0, lines0) == scan_words(
                    help@,
                    i + 1,
                    Seq::empty(),
                    Seq::empty(),
                    lines0.push(words_done),
                ));
            } else {
                assert(scan_words(help@, i as int, cur0, words0, lines0) == scan_words(
                    help@,
                    i + 1,
                    Seq::empty(),
                    words_done,
                    lines0,
                ));
            }
            assert(cur@ =~= Seq::<char>::empty());
        } else {
            push_char(&mut cur, c);
            assert(scan_words(help@, i as int, cur0, words0, lines0) == scan_words(
                help@,
                i + 1,
                cur0.push(c),
                words0,
                lines0,
            ));
        }
        i += 1;
    }
    let ghost words_done = if cur@.len() > 0 { words.push(cur@) } else { words };
    assert(line_words(help@) == lines.push(words_done));
    if cur.as_str().unicode_len() > 0 {
        if count == 0 {
            first = cur;
            count = 1;
        } else if count == 1 {
            second = cur;
            count = 2;
        }
    }
    let hit = count == 2 && text_eq(first.as_str(), "-Z") && text_eq(second.as_str(), "remark-dir=val");
    assert(hit == lists_remark_dir(words_done));
    let ghost all = lines.push(words_done);
    assert(supports_remark_dir(help@) == (found || hit)) by {
        if exists|k: int| 0 <= k < all.len() && lists_remark_dir(#[trigger] all[k]) {
            let k = choose|k: int| 0 <= k < all.len() && lists_remark_dir(#[trigger] all[k]);
            if k < lines.len() {
                assert(all[k] == lines[k]);
            }
        }
        if found {
            let k = choose|k: int| 0 <= k < lines.len() && lists_remark_dir(#[trigger] lines[k]);
            assert(all[k] == lines[k]);
        }
        if hit {
            assert(all[lines.len() as int] == words_done);
        }
    }
    found || hit
}

fn is_space_char(c: char) -> (r: bool)
    ensures
        r == is_space(c),
{
    c == ' ' || ('\u{9}' <= c && c <= '\u{d}') || c == '\u{85}' || c == '\u{a0}' || c == '\u{1680}'
        || ('\u{2000}' <= c && c <= '\u{200a}') || c == '\u{2028}' || c == '\u{2029}' || c == '\u{202f}'
        || c == '\u{205f}' || c == '\u{3000}'
}

// ---------------------------------------------------------------------------
// The toolchain's sources.

/// Where a sysroot keeps the sources of the standard library.
pub open spec fn sysroot_source_dir(sysroot: Seq<char>) -> Seq<char> {
    join_path(join_path(join_path(join_path(sysroot, "lib"@), "rustlib"@), "src"@), "rust"@)
}

/// Relies on `std::path::Path::is_dir`: whether a directory is at that path
/// now. What is on disk may change, so nothing more is stated.
#[verifier::external_body]
fn path_is_dir(path: &str) -> bool {
    std::path::Path::new(path).is_dir()
}

impl RustcSourceRoot {
    /// The sources under a sysroot, where that directory exists.
    pub fn from_sysroot(path: String) -> (r: Result<Self, String>)
        ensures
            match r {
                Ok(root) => root.0@ == sysroot_source_dir(path@),
                Err(message) => message@ == "Path "@ + sysroot_source_dir(path@) + " does not exist"@,
            },
    {
        let lib = join_path_of(path.as_str(), "lib");
        let rustlib = join_path_of(lib.as_str(), "rustlib");
        let src = join_path_of(rustlib.as_str(), "src");
        let src_dir = join_path_of(src.as_str(), "rust");
        if path_is_dir(src_dir.as_str()) {
            Ok(RustcSourceRoot(src_dir))
        } else {
            let mut message = String::from_str("Path ");
            message.append(src_dir.as_str());
            message.append(" does not exist");
            Err(message)
        }
    }
}

} // verus!
