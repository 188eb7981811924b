//! The record model: remarks, the functions they are about, their messages.
use crate::demangle::{demangle, display_name};
use crate::parse::{
    ArgView, DebugLocation, DocumentView, MissedView, RemarkArg, args_view, decode_document,
    decode_remark, strings_view,
};
use crate::text::{push_char, starts_with_char, text_eq};
use crate::yaml::{YamlNode, read_yaml_documents, yaml_documents};
use vstd::prelude::*;

verus! {

pub type Line = u32;

pub type Column = u32;

/// A point in a source file, as it appears in the diagnostics.
pub struct Location {
    pub file: String,
    pub line: Line,
    pub column: Column,
}

pub struct LocationView {
    pub file: Seq<char>,
    pub line: Line,
    pub column: Column,
}

impl View for Location {
    type V = LocationView;

    open spec fn view(&self) -> LocationView {
        LocationView { file: self.file@, line: self.line, column: self.column }
    }
}

/// A function, by its demangled name.
pub struct Function {
    pub name: String,
    pub location: Option<Location>,
}

pub struct FunctionView {
    pub name: Seq<char>,
    pub location: Option<LocationView>,
}

pub open spec fn option_location_view(l: Option<Location>) -> Option<LocationView> {
    match l {
        Some(l) => Some(l@),
        None => None,
    }
}

impl View for Function {
    type V = FunctionView;

    open spec fn view(&self) -> FunctionView {
        FunctionView { name: self.name@, location: option_location_view(self.location) }
    }
}

/// A piece of a remark's message: plain text, or text that refers to a place
/// in the sources.
pub enum MessagePart {
    String(String),
    AnnotatedString { message: String, location: Location },
}

pub enum MessagePartView {
    Text(Seq<char>),
    Annotated { message: Seq<char>, location: LocationView },
}

impl View for MessagePart {
    type V = MessagePartView;

    open spec fn view(&self) -> MessagePartView {
        match self {
            MessagePart::String(s) => MessagePartView::Text(s@),
            MessagePart::AnnotatedString { message, location } => MessagePartView::Annotated {
                message: message@,
                location: location@,
            },
        }
    }
}

pub open spec fn parts_view(parts: Seq<MessagePart>) -> Seq<MessagePartView> {
    parts.map_values(|p: MessagePart| p@)
}

/// A missed optimization.
pub struct Remark {
    pub pass: String,
    pub name: String,
    pub function: Function,
    pub message: Vec<MessagePart>,
    /// The location was resolved under the toolchain's sources.
    pub external: bool,
}

pub struct RemarkView {
    pub pass: Seq<char>,
    pub name: Seq<char>,
    pub function: FunctionView,
    pub message: Seq<MessagePartView>,
    pub external: bool,
}

impl View for Remark {
    type V = RemarkView;

    open spec fn view(&self) -> RemarkView {
        RemarkView {
            pass: self.pass@,
            name: self.name@,
            function: self.function@,
            message: parts_view(self.message@),
            external: self.external,
        }
    }
}

pub open spec fn remarks_view(remarks: Seq<Remark>) -> Seq<RemarkView> {
    remarks.map_values(|r: Remark| r@)
}

/// Directory holding the sources of the Rust toolchain.
pub struct RustcSourceRoot(pub String);

/// How remarks are selected while they are loaded.
pub struct RemarkLoadOptions {
    /// Keep remarks whose location is outside the project.
    pub external: bool,
    /// Root of the project's sources.
    pub source_dir: String,
    /// Remark kinds (names) that are dropped.
    pub filter_kind: Vec<String>,
    /// Where locations inside the toolchain's sources are resolved.
    pub rustc_source_root: Option<RustcSourceRoot>,
}

/// Remark kinds that are dropped unless asked for: frequent and seldom useful.
pub const DEFAULT_KIND_FILTER: [&'static str; 3] = ["FastISelFailure", "NeverInline", "SpillReloadCopies"];

// ---------------------------------------------------------------------------
// Messages.

/// A message under construction: the parts so far and the pending text.
pub type MessageState = (Seq<MessagePartView>, Seq<char>);

/// The parts, with the pending text as a last plain part where it is not empty.
pub open spec fn flush(st: MessageState) -> Seq<MessagePartView> {
    if st.1.len() > 0 {
        st.0.push(MessagePartView::Text(st.1))
    } else {
        st.0
    }
}

pub open spec fn annotate(st: MessageState, part: MessagePartView) -> MessageState {
    (flush(st).push(part), Seq::empty())
}

pub open spec fn concat_all(values: Seq<Seq<char>>) -> Seq<char>
    decreases values.len(),
{
    if values.len() == 0 {
        Seq::empty()
    } else {
        concat_all(values.drop_last()) + values.last()
    }
}

/// How one argument changes the message under construction.
pub open spec fn message_step(st: MessageState, a: ArgView) -> MessageState {
    match a {
        ArgView::Text(s) => (st.0, st.1 + s),
        ArgView::Reason(s) => (st.0, st.1 + s),
        ArgView::Callee(f, Some(l)) => annotate(
            st,
            MessagePartView::Annotated { message: display_name(f), location: l },
        ),
        ArgView::Caller(f, Some(l)) => annotate(
            st,
            MessagePartView::Annotated { message: display_name(f), location: l },
        ),
        ArgView::Callee(f, None) => (st.0, st.1 + display_name(f)),
        ArgView::Caller(f, None) => (st.0, st.1 + display_name(f)),
        ArgView::Other(Some(l), values) => annotate(
            st,
            MessagePartView::Annotated { message: concat_all(values), location: l },
        ),
        ArgView::Other(None, values) => (st.0, st.1 + concat_all(values)),
    }
}

pub open spec fn message_state(args: Seq<ArgView>) -> MessageState
    decreases args.len(),
{
    if args.len() == 0 {
        (Seq::empty(), Seq::empty())
    } else {
        message_step(message_state(args.drop_last()), args.last())
    }
}

/// The message that an argument list reads as.
pub open spec fn message_of(args: Seq<ArgView>) -> Seq<MessagePartView> {
    flush(message_state(args))
}

/// Turns a decoded `DebugLoc` into a location.
pub fn parse_debug_loc(location: DebugLocation) -> (r: Location)
    ensures
        r@ == location@,
{
    Location { file: location.file, line: location.line, column: location.column }
}

fn copy_debug_loc(l: &DebugLocation) -> (r: DebugLocation)
    ensures
        r@ == l@,
{
    DebugLocation { file: l.file.clone(), line: l.line, column: l.column }
}

/// Pushes the pending text as a plain part, where there is any, then `part`.
fn add_annotated(part: MessagePart, buffer: &mut String, parts: &mut Vec<MessagePart>)
    ensures
        parts_view(final(parts)@) == annotate((parts_view(old(parts)@), old(buffer)@), part@).0,
        final(buffer)@ == Seq::<char>::empty(),
{
    let ghost p0 = parts@;
    if buffer.as_str().unicode_len() > 0 {
        let text = buffer.clone();
        *buffer = String::new();
        parts.push(MessagePart::String(text));
        assert(parts_view(parts@) =~= parts_view(p0).push(MessagePartView::Text(text@)));
    } else {
        *buffer = String::new();
    }
    let ghost p1 = parts@;
    parts.push(part);
    assert(parts_view(parts@) =~= parts_view(p1).push(part@));
}

fn append_values(buffer: &mut String, values: &Vec<String>)
    ensures
        final(buffer)@ == old(buffer)@ + concat_all(strings_view(values@)),
{
    let mut i: usize = 0;
    while i < values.len()
        invariant
            i <= values@.len(),
            buffer@ == old(buffer)@ + concat_all(strings_view(values@.subrange(0, i as int))),
        decreases values@.len() - i,
    {
        let ghost before = buffer@;
        buffer.append(values[i].as_str());
        assert(strings_view(values@.subrange(0, i as int + 1)).drop_last() =~= strings_view(
            values@.subrange(0, i as int),
        ));
        i += 1;
    }
    assert(values@.subrange(0, values@.len() as int) =~= values@);
}

/// Rebuilds a remark's message from its argument list: text accumulates,
/// and each argument with a location becomes a part of its own that refers
/// to it.
pub fn construct_message(arguments: Vec<RemarkArg>) -> (r: Vec<MessagePart>)
    ensures
        parts_view(r@) == message_of(args_view(arguments@)),
{
    let mut parts: Vec<MessagePart> = Vec::new();
    let mut buffer = String::new();
    let mut i: usize = 0;
    while i < arguments.len()
        invariant
            i <= arguments@.len(),
            (parts_view(parts@), buffer@) == message_state(args_view(arguments@.subrange(0, i as int))),
        decreases arguments@.len() - i,
    {
        let ghost prefix = args_view(arguments@.subrange(0, i as int + 1));
        assert(prefix.drop_last() =~= args_view(arguments@.subrange(0, i as int)));
        match &arguments[i] {
            RemarkArg::String(inner) => buffer.append(inner.string.as_str()),
            RemarkArg::Reason(inner) => buffer.append(inner.reason.as_str()),
            RemarkArg::Callee(inner) => match &inner.debug_loc {
                Some(l) => add_annotated(
                    MessagePart::AnnotatedString {
                        message: demangle(inner.callee.as_str()),
                        location: parse_debug_loc(copy_debug_loc(l)),
                    },
                    &mut buffer,
                    &mut parts,
                ),
                None => buffer.append(demangle(inner.callee.as_str()).as_str()),
            },
            RemarkArg::Caller(inner) => match &inner.debug_loc {
                Some(l) => add_annotated(
                    MessagePart::AnnotatedString {
                        message: demangle(inner.caller.as_str()),
                        location: parse_debug_loc(copy_debug_loc(l)),
                    },
                    &mut buffer,
                    &mut parts,
                ),
                None => buffer.append(demangle(inner.caller.as_str()).as_str()),
            },
            RemarkArg::Other(inner) => match &inner.debug_loc {
                Some(l) => {
                    let mut message = String::new();
                    append_values(&mut message, &inner.values);
                    add_annotated(
                        MessagePart::AnnotatedString {
                            message,
                            location: parse_debug_loc(copy_debug_loc(l)),
                        },
                        &mut buffer,
                        &mut parts,
                    );
                },
                None => append_values(&mut buffer, &inner.values),
            },
        }
        i += 1;
    }
    assert(arguments@.subrange(0, arguments@.len() as int) =~= arguments@);
    let ghost p0 = parts@;
    if buffer.as_str().unicode_len() > 0 {
        parts.push(MessagePart::String(buffer));
        assert(parts_view(parts@) =~= parts_view(p0).push(MessagePartView::Text(buffer@)));
    }
    parts
}

// ---------------------------------------------------------------------------
// Selection of remarks.

/// Remark files end with this suffix.
pub const EXPECTED_EXTENSION: &'static str = ".opt.yaml";

/// Locations inside the toolchain's sources start with this, and a commit.
pub const RUSTC_PATH_PREFIX: &'static str = "/rustc/";

pub struct OptionsView {
    pub external: bool,
    pub source_dir: Seq<char>,
    pub filter_kind: Seq<Seq<char>>,
    pub rustc_source_root: Option<Seq<char>>,
}

impl View for RemarkLoadOptions {
    type V = OptionsView;

    open spec fn view(&self) -> OptionsView {
        OptionsView {
            external: self.external,
            source_dir: self.source_dir@,
            filter_kind: strings_view(self.filter_kind@),
            rustc_source_root: match self.rustc_source_root {
                Some(r) => Some(r.0@),
                None => None,
            },
        }
    }
}

/// Whether a file name has the suffix of remark files.
pub open spec fn is_remark_file_name(name: Seq<char>) -> bool {
    name.len() >= EXPECTED_EXTENSION@.len() && name.subrange(
        name.len() - EXPECTED_EXTENSION@.len(),
        name.len() as int,
    ) == EXPECTED_EXTENSION@
}

/// `rel` under the directory `root`, as `Path::join` puts it: an absolute
/// `rel` replaces `root`.
pub open spec fn join_path(root: Seq<char>, rel: Seq<char>) -> Seq<char> {
    if rel.len() > 0 && rel[0] == '/' {
        rel
    } else if root.len() == 0 {
        rel
    } else if root.last() == '/' {
        root + rel
    } else {
        root + seq!['/'] + rel
    }
}

pub open spec fn is_absolute(file: Seq<char>) -> bool {
    file.len() > 0 && file[0] == '/'
}

/// The index of the first `/` in `s` from `i` on, or `s.len()`.
pub open spec fn slash_from(s: Seq<char>, i: int) -> int
    decreases s.len() - i,
{
    if i < 0 || i >= s.len() {
        s.len() as int
    } else if s[i] == '/' {
        i
    } else {
        slash_from(s, i + 1)
    }
}

/// For `/rustc/<commit>/<path>`, the `<path>` inside the toolchain's sources.
pub open spec fn toolchain_relative(file: Seq<char>) -> Option<Seq<char>> {
    let n = RUSTC_PATH_PREFIX@.len() as int;
    if file.len() > n && file.subrange(0, n) == RUSTC_PATH_PREFIX@ {
        let k = slash_from(file, n);
        if n < k < file.len() {
            Some(file.subrange(k + 1, file.len() as int))
        } else {
            None
        }
    } else {
        None
    }
}

/// Where a location's file must be looked for on disk before it is kept.
pub open spec fn needs_lookup(opts: OptionsView, file: Seq<char>) -> bool {
    !(opts.rustc_source_root is Some && toolchain_relative(file) is Some) && !opts.external
        && !is_absolute(file)
}

/// The file under which a location is kept, or `None` where it is dropped.
/// `found` is whether the file is there under the source root; it is read
/// only where `needs_lookup` holds.
pub open spec fn admitted_file(opts: OptionsView, file: Seq<char>, found: bool) -> Option<Seq<char>> {
    if opts.rustc_source_root is Some && toolchain_relative(file) is Some {
        Some(join_path(opts.rustc_source_root->0, toolchain_relative(file)->0))
    } else if opts.external {
        Some(file)
    } else if is_absolute(file) {
        None
    } else if found {
        Some(file)
    } else {
        None
    }
}

/// A location in the toolchain's sources, resolved under their root.
pub open spec fn in_toolchain(opts: OptionsView, file: Seq<char>) -> bool {
    opts.rustc_source_root is Some && toolchain_relative(file) is Some
}

pub open spec fn record_of(m: MissedView, file: Seq<char>, external: bool) -> RemarkView {
    RemarkView {
        pass: m.pass,
        name: m.name,
        function: FunctionView {
            name: display_name(m.function),
            location: Some(
                LocationView {
                    file,
                    line: m.debug_loc->0.line,
                    column: m.debug_loc->0.column,
                },
            ),
        },
        message: message_of(m.args),
        external,
    }
}

/// The record that a decoded document gives, if it is kept.
pub open spec fn kept(opts: OptionsView, d: Option<DocumentView>, found: bool) -> Option<RemarkView> {
    match d {
        Some(DocumentView::Missed(m)) => {
            if m.debug_loc is None || opts.filter_kind.contains(m.name) {
                None
            } else {
                match admitted_file(opts, m.debug_loc->0.file, found) {
                    Some(f) => Some(record_of(m, f, in_toolchain(opts, m.debug_loc->0.file))),
                    None => None,
                }
            }
        },
        _ => None,
    }
}

/// What a document that was read decodes to; `None` where it could not be
/// read or is malformed.
pub open spec fn decode_read(d: Option<YamlNode>) -> Option<DocumentView> {
    match d {
        Some(n) => decode_document(n),
        None => None,
    }
}

/// The records of a document stream, in order; `found[i]` answers the disk
/// lookup for document `i`.
pub open spec fn select(opts: OptionsView, docs: Seq<Option<YamlNode>>, found: Seq<bool>) -> Seq<RemarkView>
    decreases docs.len(),
{
    if docs.len() == 0 {
        Seq::empty()
    } else {
        let rest = select(opts, docs.drop_last(), found.drop_last());
        match kept(opts, decode_read(docs.last()), found.last()) {
            Some(r) => rest.push(r),
            None => rest,
        }
    }
}

pub open spec fn option_remark_view(r: Option<Remark>) -> Option<RemarkView> {
    match r {
        Some(r) => Some(r@),
        None => None,
    }
}

/// Whether a file name ends with the suffix of remark files.
pub fn has_remark_extension(name: &str) -> (r: bool)
    ensures
        r == is_remark_file_name(name@),
{
    let n = name.unicode_len();
    let m = EXPECTED_EXTENSION.unicode_len();
    if n < m {
        return false;
    }
    text_eq(name.substring_char(n - m, n), EXPECTED_EXTENSION)
}

/// `rel` under the directory `root`.
pub fn join_path_of(root: &str, rel: &str) -> (r: String)
    ensures
        r@ == join_path(root@, rel@),
{
    let n = root.unicode_len();
    if starts_with_char(rel, '/') || n == 0 {
        String::from_str(rel)
    } else {
        let mut out = String::from_str(root);
        if root.get_char(n - 1) != '/' {
            push_char(&mut out, '/');
        }
        out.append(rel);
        out
    }
}

fn slash_index(s: &str, from: usize) -> (r: usize)
    requires
        from <= s@.len(),
    ensures
        r as int == slash_from(s@, from as int),
{
    let n = s.unicode_len();
    let mut i = from;
    while i < n
        invariant
            from <= i <= n,
            n == s@.len(),
            slash_from(s@, from as int) == slash_from(s@, i as int),
        decreases n - i,
    {
        if s.get_char(i) == '/' {
            return i;
        }
        i += 1;
    }
    i
}

/// For `/rustc/<commit>/<path>`, the `<path>` inside the toolchain's sources.
pub fn toolchain_relative_of(file: &str) -> (r: Option<String>)
    ensures
        option_text(r) == toolchain_relative(file@),
{
    let n = file.unicode_len();
    let p = RUSTC_PATH_PREFIX.unicode_len();
    if n <= p || !text_eq(file.substring_char(0, p), RUSTC_PATH_PREFIX) {
        return None;
    }
    let k = slash_index(file, p);
    if p < k && k < n {
        Some(String::from_str(file.substring_char(k + 1, n)))
    } else {
        None
    }
}

pub open spec fn option_text(s: Option<String>) -> Option<Seq<char>> {
    match s {
        Some(s) => Some(s@),
        None => None,
    }
}

/// Relies on `std::path::Path::is_file`: whether a regular file is at that
/// path now. What is on disk may change, so nothing more is stated.
#[verifier::external_body]
fn path_is_file(path: &str) -> bool {
    std::path::Path::new(path).is_file()
}

/// Whether a remark's file is one of the project's: `found` is whether the
/// file exists under the source root. Returns the file under which the
/// location is kept, or `None` where it is dropped.
pub fn admit_location(options: &RemarkLoadOptions, file: &str, found: bool) -> (r: Option<String>)
    ensures
        option_text(r) == admitted_file(options@, file@, found),
{
    if let Some(root) = &options.rustc_source_root {
        if let Some(rest) = toolchain_relative_of(file) {
            return Some(join_path_of(root.0.as_str(), rest.as_str()));
        }
    }
    if options.external {
        Some(String::from_str(file))
    } else if starts_with_char(file, '/') {
        None
    } else if found {
        Some(String::from_str(file))
    } else {
        None
    }
}

/// Whether a remark kind is filtered out.
pub fn is_filtered_kind(options: &RemarkLoadOptions, name: &str) -> (r: bool)
    ensures
        r == options@.filter_kind.contains(name@),
{
    let mut i: usize = 0;
    while i < options.filter_kind.len()
        invariant
            i <= options.filter_kind@.len(),
            forall|j: int| 0 <= j < i ==> options@.filter_kind[j] != name@,
        decreases options.filter_kind@.len() - i,
    {
        if text_eq(options.filter_kind[i].as_str(), name) {
            assert(options@.filter_kind[i as int] == name@);
            return true;
        }
        i += 1;
    }
    false
}

/// Whether `parse_remarks` asks the disk about a document: the file of its
/// location, under the source root, where that decides.
fn disk_answer(doc: &crate::parse::Remark, options: &RemarkLoadOptions) -> bool {
    match doc {
        crate::parse::Remark::Missed(m) => match &m.debug_loc {
            Some(l) => {
                if !options.external && !starts_with_char(l.file.as_str(), '/') {
                    path_is_file(join_path_of(options.source_dir.as_str(), l.file.as_str()).as_str())
                } else {
                    false
                }
            },
            None => false,
        },
        _ => false,
    }
}

/// The record of one decoded document, where it is kept; `found` is whether
/// its location's file exists under the source root.
pub fn remark_from_document(doc: crate::parse::Remark, options: &RemarkLoadOptions, found: bool) -> (r:
    Option<Remark>)
    ensures
        option_remark_view(r) == kept(options@, Some(doc@), found),
{
    let m = match doc {
        crate::parse::Remark::Missed(m) => m,
        _ => return None,
    };
    let location = match m.debug_loc {
        Some(l) => l,
        None => return None,
    };
    if is_filtered_kind(options, m.name.as_str()) {
        return None;
    }
    let external = match &options.rustc_source_root {
        Some(_) => toolchain_relative_of(location.file.as_str()).is_some(),
        None => false,
    };
    let file = match admit_location(options, location.file.as_str(), found) {
        Some(f) => f,
        None => return None,
    };
    let remark = Remark {
        pass: m.pass,
        name: m.name,
        function: Function {
            name: demangle(m.function.as_str()),
            location: Some(Location { file, line: location.line, column: location.column }),
        },
        message: construct_message(m.args),
        external,
    };
    Some(remark)
}

/// Parses the remarks of one remark file's text: the `!Missed` documents
/// that have a location, whose kind is not filtered out and whose file is
/// one of the project's (or any file, with `external`). Documents that
/// serde_yaml cannot read, malformed ones, and the other kinds of documents
/// are skipped; after a YAML syntax error nothing more is read. `found`
/// stands for the answers of the disk about the files of the locations.
pub fn parse_remarks(text: &str, options: &RemarkLoadOptions) -> (r: Vec<Remark>)
    ensures
        text@.len() == 0 ==> r@.len() == 0,
        text@.len() > 0 ==> exists|found: Seq<bool>|
            found.len() == yaml_documents(text@).len() && remarks_view(r@) == select(
                options@,
                yaml_documents(text@),
                found,
            ),
{
    let mut remarks: Vec<Remark> = Vec::new();
    if text.unicode_len() == 0 {
        return remarks;
    }
    let docs = read_yaml_documents(text);
    let ghost mut found: Seq<bool> = Seq::empty();
    let mut i: usize = 0;
    while i < docs.len()
        invariant
            i <= docs@.len(),
            docs@ == yaml_documents(text@),
            found.len() == i,
            remarks_view(remarks@) == select(options@, docs@.subrange(0, i as int), found),
        decreases docs@.len() - i,
    {
        let decoded = match &docs[i] {
            Some(node) => decode_remark(node),
            None => None,
        };
        let (kept_remark, b) = match decoded {
            Some(d) => {
                let b = disk_answer(&d, options);
                (remark_from_document(d, options, b), b)
            },
            None => (None, false),
        };
        assert(option_remark_view(kept_remark) == kept(options@, decode_read(docs@[i as int]), b));
        let ghost prefix = docs@.subrange(0, i as int + 1);
        assert(prefix.drop_last() =~= docs@.subrange(0, i as int));
        assert(found.push(b).drop_last() =~= found);
        let ghost before = remarks@;
        match kept_remark {
            Some(remark) => {
                remarks.push(remark);
                assert(remarks_view(remarks@) =~= remarks_view(before).push(remark@));
            },
            None => {},
        }
        proof {
            found = found.push(b);
        }
        i += 1;
    }
    assert(docs@.subrange(0, docs@.len() as int) =~= docs@);
    remarks
}

/// No record of a filtered-out kind is kept.
pub proof fn lemma_filtered_kinds_dropped(opts: OptionsView, docs: Seq<Option<YamlNode>>, found: Seq<bool>)
    ensures
        forall|i: int|
            0 <= i < select(opts, docs, found).len() ==> !opts.filter_kind.contains(
                (#[trigger] select(opts, docs, found)[i]).name,
            ),
    decreases docs.len(),
{
    if docs.len() > 0 {
        lemma_filtered_kinds_dropped(opts, docs.drop_last(), found.drop_last());
    }
}

/// Without `external`, a kept record's location is a relative path found
/// under the source root, or a path in the toolchain's sources resolved
/// under their root.
pub proof fn lemma_locality(opts: OptionsView, d: Option<DocumentView>, found: bool)
    requires
        !opts.external,
        kept(opts, d, found) is Some,
    ensures
        match d {
            Some(DocumentView::Missed(m)) => {
                let file = m.debug_loc->0.file;
                (opts.rustc_source_root is Some && toolchain_relative(file) is Some) || (!is_absolute(file)
                    && found)
            },
            _ => false,
        },
{
}

/// Record `r` is what document `j` gives.
pub open spec fn comes_from(opts: OptionsView, docs: Seq<Option<YamlNode>>, found: Seq<bool>, j: int, r: RemarkView) -> bool {
    0 <= j < docs.len() && kept(opts, decode_read(docs[j]), found[j]) == Some(r)
}

/// Some document of the stream gives `r`.
pub open spec fn has_origin(opts: OptionsView, docs: Seq<Option<YamlNode>>, found: Seq<bool>, r: RemarkView) -> bool {
    exists|j: int| comes_from(opts, docs, found, j, r)
}

/// Every record of a stream comes from one of its documents.
pub proof fn lemma_select_origin(opts: OptionsView, docs: Seq<Option<YamlNode>>, found: Seq<bool>)
    requires
        found.len() == docs.len(),
    ensures
        forall|i: int|
            0 <= i < select(opts, docs, found).len() ==> has_origin(
                opts,
                docs,
                found,
                #[trigger] select(opts, docs, found)[i],
            ),
    decreases docs.len(),
{
    if docs.len() > 0 {
        let pd = docs.drop_last();
        let pf = found.drop_last();
        lemma_select_origin(opts, pd, pf);
        let rest = select(opts, pd, pf);
        assert forall|i: int| 0 <= i < select(opts, docs, found).len() implies has_origin(
            opts,
            docs,
            found,
            #[trigger] select(opts, docs, found)[i],
        ) by {
            if i < rest.len() {
                assert(select(opts, docs, found)[i] == rest[i]);
                assert(has_origin(opts, pd, pf, rest[i]));
                let j = choose|j: int| comes_from(opts, pd, pf, j, rest[i]);
                assert(pd[j] == docs[j] && pf[j] == found[j]);
                assert(comes_from(opts, docs, found, j, rest[i]));
            } else {
                let j = docs.len() - 1;
                assert(docs[j] == docs.last() && found[j] == found.last());
                assert(comes_from(opts, docs, found, j, select(opts, docs, found)[i]));
            }
        }
    }
}

/// The document `j` that gives a record was kept for its place: in the
/// toolchain's sources, or a relative path that the disk found.
pub open spec fn kept_for_place(opts: OptionsView, docs: Seq<Option<YamlNode>>, found: Seq<bool>, j: int) -> bool {
    match decode_read(docs[j]) {
        Some(DocumentView::Missed(m)) => in_toolchain(opts, m.debug_loc->0.file) || (!is_absolute(
            m.debug_loc->0.file,
        ) && found[j]),
        _ => false,
    }
}

/// Without `external`, every record of a stream has its location in the
/// toolchain's sources (resolved under their root), or at a relative path
/// for which the disk answered that the file exists under the source root.
pub proof fn lemma_stream_locality(opts: OptionsView, docs: Seq<Option<YamlNode>>, found: Seq<bool>)
    requires
        !opts.external,
        found.len() == docs.len(),
    ensures
        forall|i: int, j: int|
            0 <= i < select(opts, docs, found).len() && #[trigger] comes_from(
                opts,
                docs,
                found,
                j,
                select(opts, docs, found)[i],
            ) ==> kept_for_place(opts, docs, found, j),
        forall|i: int|
            0 <= i < select(opts, docs, found).len() ==> has_origin(
                opts,
                docs,
                found,
                #[trigger] select(opts, docs, found)[i],
            ),
{
    lemma_select_origin(opts, docs, found);
    let sel = select(opts, docs, found);
    assert forall|i: int, j: int|
        0 <= i < sel.len() && #[trigger] comes_from(opts, docs, found, j, sel[i]) implies kept_for_place(
        opts,
        docs,
        found,
        j,
    ) by {
        lemma_locality(opts, decode_read(docs[j]), found[j]);
    }
}

/// Reading a stream is reading its parts one after the other.
pub proof fn lemma_select_concat(
    opts: OptionsView,
    a: Seq<Option<YamlNode>>,
    fa: Seq<bool>,
    b: Seq<Option<YamlNode>>,
    fb: Seq<bool>,
)
    requires
        fa.len() == a.len(),
        fb.len() == b.len(),
    ensures
        select(opts, a + b, fa + fb) == select(opts, a, fa) + select(opts, b, fb),
    decreases b.len(),
{
    if b.len() == 0 {
        assert(a + b =~= a);
        assert(fa + fb =~= fa);
        assert(select(opts, a, fa) + select(opts, b, fb) =~= select(opts, a, fa));
    } else {
        lemma_select_concat(opts, a, fa, b.drop_last(), fb.drop_last());
        assert((a + b).drop_last() =~= a + b.drop_last());
        assert((fa + fb).drop_last() =~= fa + fb.drop_last());
        assert((a + b).last() == b.last());
        assert((fa + fb).last() == fb.last());
        let left = select(opts, a, fa);
        let rest = select(opts, b.drop_last(), fb.drop_last());
        match kept(opts, decode_read(b.last()), fb.last()) {
            Some(r) => {
                assert(left + rest.push(r) =~= (left + rest).push(r));
            },
            None => {},
        }
    }
}

/// A document with a tag other than `!Missed`, `!Passed` and `!Analysis`
/// gives no record, and the documents before and after it give what they
/// would give alone.
pub proof fn lemma_unknown_tag_skipped(
    opts: OptionsView,
    a: Seq<Option<YamlNode>>,
    fa: Seq<bool>,
    u: YamlNode,
    x: bool,
    b: Seq<Option<YamlNode>>,
    fb: Seq<bool>,
)
    requires
        fa.len() == a.len(),
        fb.len() == b.len(),
        match u {
            YamlNode::Tagged(tag, _) => tag@ != "!Missed"@ && tag@ != "!Passed"@ && tag@ != "!Analysis"@,
            _ => false,
        },
    ensures
        select(opts, a + seq![Some(u)] + b, fa + seq![x] + fb) == select(opts, a, fa) + select(opts, b, fb),
{
    let one = seq![Some(u)];
    let fx = seq![x];
    assert(decode_read(Some(u)) == Some(DocumentView::Unrecognized));
    assert(one.drop_last() =~= Seq::<Option<YamlNode>>::empty());
    assert(fx.drop_last() =~= Seq::<bool>::empty());
    assert(one.last() == Some(u) && fx.last() == x);
    assert(select(opts, one.drop_last(), fx.drop_last()) == Seq::<RemarkView>::empty());
    assert(kept(opts, decode_read(one.last()), fx.last()) is None);
    assert(select(opts, one, fx) =~= Seq::<RemarkView>::empty());
    lemma_select_concat(opts, a, fa, one, fx);
    lemma_select_concat(opts, a + one, fa + fx, b, fb);
    assert(select(opts, a, fa) + Seq::<RemarkView>::empty() =~= select(opts, a, fa));
}

} // verus!
