//! What the static report shows: links, messages, the summary entries, the
//! navigation list and the per-file pages. Writing the files is left to the
//! caller.
use crate::index::{RemarkIndex, bucket, files_view, index_keys, index_of, lemma_bucket_in_range, located_in};
use crate::remark::{
    Location, LocationView, MessagePart, MessagePartView, Remark, RemarkView, join_path,
    join_path_of, parts_view, remarks_view,
};
use crate::remark::{OptionsView, lemma_filtered_kinds_dropped, select};
use crate::yaml::YamlNode;
use crate::order::{is_stable_order, lemma_stable_order_unique, stable_order};
use crate::text::{
    chars_of, compare_text, decimal, lemma_text_lt_asymmetric, lemma_text_lt_irreflexive,
    lemma_text_lt_total, lemma_text_lt_transitive, push_char, starts_with_char, text_lt,
    u32_to_decimal,
};
use vstd::prelude::*;

verus! {

/// The summary page, relative to the output directory.
pub const INDEX_FILE_PATH: &'static str = "index.html";

/// The list of all remarks, relative to the output directory.
pub const REMARK_LIST_FILE_PATH: &'static str = "remarks.html";

/// Directory of the per-file pages, relative to the output directory.
pub const SRC_DIR_NAME: &'static str = "src";

// ---------------------------------------------------------------------------
// Escaping.

pub open spec fn escape_char(c: char) -> Seq<char> {
    if c == '&' {
        "&amp;"@
    } else if c == '<' {
        "&lt;"@
    } else if c == '>' {
        "&gt;"@
    } else if c == '"' {
        "&quot;"@
    } else if c == '\'' {
        "&#x27;"@
    } else if c == '/' {
        "&#x2F;"@
    } else {
        seq![c]
    }
}

/// `s` with `& < > " ' /` written as HTML entities.
pub open spec fn html_escaped(s: Seq<char>) -> Seq<char>
    decreases s.len(),
{
    if s.len() == 0 {
        Seq::empty()
    } else {
        html_escaped(s.drop_last()) + escape_char(s.last())
    }
}

/// Relies on `html_escape::encode_safe`: writes `&`, `<`, `>`, `"`, `'` and
/// `/` as `&amp;`, `&lt;`, `&gt;`, `&quot;`, `&#x27;` and `&#x2F;`, and
/// keeps every other character.
#[verifier::external_body]
fn escape_html(s: &str) -> (r: String)
    ensures
        r@ == html_escaped(s@),
{
    html_escape::encode_safe(s).into_owned()
}

// ---------------------------------------------------------------------------
// Paths and links.

pub open spec fn url_char(c: char) -> char {
    if c == '/' || c == '\\' {
        '_'
    } else {
        c
    }
}

/// The page of a source file: separators become `_`, and `.html` is added,
/// under `prefix` where there is one.
pub open spec fn url_of(prefix: Option<Seq<char>>, path: Seq<char>) -> Seq<char> {
    let head = match prefix {
        Some(p) => p.push('/'),
        None => Seq::empty(),
    };
    head + path.map_values(|c: char| url_char(c)) + ".html"@
}

pub open spec fn default_label(l: LocationView) -> Seq<char> {
    l.file + ":"@ + decimal(l.line as nat) + ":"@ + decimal(l.column as nat)
}

/// A link to the line of a location, labelled `label` or else
/// `file:line:column`.
pub open spec fn link_of(l: LocationView, prefix: Option<Seq<char>>, label: Option<Seq<char>>) -> Seq<char> {
    let text = match label {
        Some(t) => t,
        None => default_label(l),
    };
    "<a href='"@ + url_of(prefix, l.file) + "#L"@ + decimal(l.line as nat) + "'>"@ + html_escaped(text)
        + "</a>"@
}

pub open spec fn part_html(p: MessagePartView, prefix: Option<Seq<char>>) -> Seq<char> {
    match p {
        MessagePartView::Text(s) => html_escaped(s),
        MessagePartView::Annotated { message, location } => link_of(location, prefix, Some(message)),
    }
}

/// A message as HTML: escaped text, and links for the annotated parts.
pub open spec fn message_html(parts: Seq<MessagePartView>, prefix: Option<Seq<char>>) -> Seq<char>
    decreases parts.len(),
{
    if parts.len() == 0 {
        Seq::empty()
    } else {
        message_html(parts.drop_last(), prefix) + part_html(parts.last(), prefix)
    }
}

pub open spec fn option_str_view(p: Option<&str>) -> Option<Seq<char>> {
    match p {
        Some(p) => Some(p@),
        None => None,
    }
}

/// Appends the page of `path` to `buffer`.
pub fn path_to_relative_url(buffer: &mut String, prefix: Option<&str>, path: &str)
    ensures
        final(buffer)@ == old(buffer)@ + url_of(option_str_view(prefix), path@),
{
    if let Some(prefix) = prefix {
        buffer.append(prefix);
        push_char(buffer, '/');
    }
    let ghost start = buffer@;
    let n = path.unicode_len();
    let mut i: usize = 0;
    while i < n
        invariant
            i <= n,
            n == path@.len(),
            buffer@ == start + path@.subrange(0, i as int).map_values(|c: char| url_char(c)),
        decreases n - i,
    {
        let ch = path.get_char(i);
        if ch == '/' || ch == '\\' {
            push_char(buffer, '_');
        } else {
            push_char(buffer, ch);
        }
        assert(path@.subrange(0, i as int + 1).map_values(|c: char| url_char(c)) =~= path@.subrange(
            0,
            i as int,
        ).map_values(|c: char| url_char(c)).push(url_char(ch)));
        i += 1;
    }
    assert(path@.subrange(0, n as int) =~= path@);
    buffer.append(".html");
    proof {
        let head = match option_str_view(prefix) {
            Some(p) => p.push('/'),
            None => Seq::<char>::empty(),
        };
        assert(start == old(buffer)@ + head);
        assert(old(buffer)@ + url_of(option_str_view(prefix), path@) =~= old(buffer)@ + head
            + path@.map_values(|c: char| url_char(c)) + ".html"@);
    }
}

/// Appends a link to the line of `location`.
pub fn render_remark_link(buffer: &mut String, location: &Location, prefix: Option<&str>, label: Option<&str>)
    ensures
        final(buffer)@ == old(buffer)@ + link_of(location@, option_str_view(prefix), option_str_view(label)),
{
    buffer.append("<a href='");
    path_to_relative_url(buffer, prefix, location.file.as_str());
    buffer.append("#L");
    buffer.append(u32_to_decimal(location.line).as_str());
    buffer.append("'>");
    let escaped = match label {
        Some(label) => escape_html(label),
        None => {
            let mut text = location.file.clone();
            text.append(":");
            text.append(u32_to_decimal(location.line).as_str());
            text.append(":");
            text.append(u32_to_decimal(location.column).as_str());
            escape_html(text.as_str())
        },
    };
    buffer.append(escaped.as_str());
    buffer.append("</a>");
    proof {
        let l = location@;
        let p = option_str_view(prefix);
        let text = match option_str_view(label) {
            Some(t) => t,
            None => default_label(l),
        };
        assert(old(buffer)@ + link_of(l, p, option_str_view(label)) =~= old(buffer)@ + "<a href='"@
            + url_of(p, l.file) + "#L"@ + decimal(l.line as nat) + "'>"@ + html_escaped(text)
            + "</a>"@);
    }
}

/// A message as HTML; links go to pages under `prefix`.
pub fn format_message(parts: &[MessagePart], prefix: Option<&str>) -> (r: String)
    ensures
        r@ == message_html(parts_view(parts@), option_str_view(prefix)),
{
    let mut buffer = String::new();
    let mut i: usize = 0;
    while i < parts.len()
        invariant
            i <= parts@.len(),
            buffer@ == message_html(parts_view(parts@.subrange(0, i as int)), option_str_view(prefix)),
        decreases parts@.len() - i,
    {
        assert(parts_view(parts@.subrange(0, i as int + 1)).drop_last() =~= parts_view(
            parts@.subrange(0, i as int),
        ));
        match &parts[i] {
            MessagePart::String(s) => {
                let escaped = escape_html(s.as_str());
                buffer.append(escaped.as_str());
            },
            MessagePart::AnnotatedString { message, location } => {
                render_remark_link(&mut buffer, location, prefix, Some(message.as_str()));
            },
        }
        i += 1;
    }
    assert(parts@.subrange(0, parts@.len() as int) =~= parts@);
    buffer
}

/// Where the source of a file key is read: an absolute key as it is, a
/// relative one under the source root.
pub open spec fn resolved_path(root: Seq<char>, path: Seq<char>) -> Seq<char> {
    if path.len() > 0 && path[0] == '/' {
        path
    } else {
        join_path(root, path)
    }
}

pub fn resolve_path(root_dir: &str, path: &str) -> (r: String)
    ensures
        r@ == resolved_path(root_dir@, path@),
{
    if starts_with_char(path, '/') {
        String::from_str(path)
    } else {
        join_path_of(root_dir, path)
    }
}

// ---------------------------------------------------------------------------
// The list of all remarks.

/// One row of the list of all remarks.
pub struct RemarkIndexEntry {
    pub name: String,
    /// A link to the remark's location, where it has one.
    pub location: Option<String>,
    /// The function's name, escaped.
    pub function: String,
    /// The message as HTML.
    pub message: String,
}

pub struct IndexEntryView {
    pub name: Seq<char>,
    pub location: Option<Seq<char>>,
    pub function: Seq<char>,
    pub message: Seq<char>,
}

impl View for RemarkIndexEntry {
    type V = IndexEntryView;

    open spec fn view(&self) -> IndexEntryView {
        IndexEntryView {
            name: self.name@,
            location: match self.location {
                Some(l) => Some(l@),
                None => None,
            },
            function: self.function@,
            message: self.message@,
        }
    }
}

pub open spec fn index_entry_of(r: RemarkView) -> IndexEntryView {
    IndexEntryView {
        name: r.name,
        location: match r.function.location {
            Some(l) => Some(link_of(l, Some(SRC_DIR_NAME@), None)),
            None => None,
        },
        function: html_escaped(r.function.name),
        message: message_html(r.message, Some(SRC_DIR_NAME@)),
    }
}

pub open spec fn index_entries_view(v: Seq<RemarkIndexEntry>) -> Seq<IndexEntryView> {
    v.map_values(|e: RemarkIndexEntry| e@)
}

/// The row of one remark in the list of all remarks.
pub fn remark_index_entry(remark: &Remark) -> (r: RemarkIndexEntry)
    ensures
        r@ == index_entry_of(remark@),
{
    let location = match &remark.function.location {
        Some(l) => {
            let mut buffer = String::new();
            render_remark_link(&mut buffer, l, Some(SRC_DIR_NAME), None);
            Some(buffer)
        },
        None => None,
    };
    RemarkIndexEntry {
        name: remark.name.clone(),
        location,
        function: escape_html(remark.function.name.as_str()),
        message: format_message(remark.message.as_slice(), Some(SRC_DIR_NAME)),
    }
}

// ---------------------------------------------------------------------------
// Pages of source files.

/// One remark as shown on the page of its source file.
pub struct RemarkSourceEntry {
    pub name: String,
    pub function: String,
    pub line: u32,
    /// The message as HTML, with links relative to the pages' directory.
    pub message: String,
}

pub struct SourceEntryView {
    pub name: Seq<char>,
    pub function: Seq<char>,
    pub line: u32,
    pub message: Seq<char>,
}

impl View for RemarkSourceEntry {
    type V = SourceEntryView;

    open spec fn view(&self) -> SourceEntryView {
        SourceEntryView { name: self.name@, function: self.function@, line: self.line, message: self.message@ }
    }
}

pub open spec fn source_entries_view(v: Seq<RemarkSourceEntry>) -> Seq<SourceEntryView> {
    v.map_values(|e: RemarkSourceEntry| e@)
}

pub open spec fn source_entry_of(r: RemarkView) -> SourceEntryView {
    SourceEntryView {
        name: r.name,
        function: r.function.name,
        line: match r.function.location {
            Some(l) => l.line,
            None => 0,
        },
        message: message_html(r.message, None),
    }
}

/// The entries of the records at the given positions.
pub open spec fn entries_at(rs: Seq<RemarkView>, ids: Seq<usize>) -> Seq<SourceEntryView> {
    ids.map_values(|i: usize| source_entry_of(rs[i as int]))
}

/// The order of entries on a page: by line, then name, function and message.
pub open spec fn entry_lt(a: SourceEntryView, b: SourceEntryView) -> bool {
    a.line < b.line || (a.line == b.line && (text_lt(a.name, b.name) || (a.name == b.name && (
    text_lt(a.function, b.function) || (a.function == b.function && text_lt(a.message, b.message))))))
}

/// Each entry comes before the ones after it: sorted, without repetitions.
pub open spec fn strictly_sorted(s: Seq<SourceEntryView>) -> bool {
    forall|i: int, j: int| 0 <= i < j < s.len() ==> entry_lt(#[trigger] s[i], #[trigger] s[j])
}

/// A page shows the given entries: each distinct one once, in `entry_lt` order.
pub open spec fn is_page_of(page: Seq<SourceEntryView>, es: Seq<SourceEntryView>) -> bool {
    strictly_sorted(page) && forall|e: SourceEntryView| page.contains(e) <==> es.contains(e)
}

pub proof fn lemma_entry_lt_order(a: SourceEntryView, b: SourceEntryView, c: SourceEntryView)
    ensures
        !entry_lt(a, a),
        !(entry_lt(a, b) && entry_lt(b, a)),
        entry_lt(a, b) && entry_lt(b, c) ==> entry_lt(a, c),
        a != b ==> entry_lt(a, b) || entry_lt(b, a),
{
    lemma_text_lt_irreflexive(a.name);
    lemma_text_lt_irreflexive(a.function);
    lemma_text_lt_irreflexive(a.message);
    lemma_text_lt_asymmetric(a.name, b.name);
    lemma_text_lt_asymmetric(a.function, b.function);
    lemma_text_lt_asymmetric(a.message, b.message);
    if text_lt(a.name, b.name) && text_lt(b.name, c.name) {
        lemma_text_lt_transitive(a.name, b.name, c.name);
    }
    if text_lt(a.function, b.function) && text_lt(b.function, c.function) {
        lemma_text_lt_transitive(a.function, b.function, c.function);
    }
    if text_lt(a.message, b.message) && text_lt(b.message, c.message) {
        lemma_text_lt_transitive(a.message, b.message, c.message);
    }
    if a.name != b.name {
        lemma_text_lt_total(a.name, b.name);
    }
    if a.function != b.function {
        lemma_text_lt_total(a.function, b.function);
    }
    if a.message != b.message {
        lemma_text_lt_total(a.message, b.message);
    }
}

/// There is one page of a set of entries: two pages that show the same
/// entries are equal.
pub proof fn lemma_page_unique(p: Seq<SourceEntryView>, q: Seq<SourceEntryView>)
    requires
        strictly_sorted(p),
        strictly_sorted(q),
        forall|e: SourceEntryView| p.contains(e) <==> q.contains(e),
    ensures
        p == q,
    decreases p.len(),
{
    if p.len() == 0 {
        if q.len() > 0 {
            assert(q.contains(q[0]));
        }
        assert(p =~= q);
    } else {
        assert(p.contains(p[0]));
        let m = choose|m: int| 0 <= m < q.len() && q[m] == p[0];
        assert(q.contains(q[0]));
        let k = choose|k: int| 0 <= k < p.len() && p[k] == q[0];
        lemma_entry_lt_order(p[0], q[0], p[0]);
        if k > 0 && m > 0 {
            assert(entry_lt(p[0], p[k]));
            assert(entry_lt(q[0], q[m]));
        }
        assert(p[0] == q[0]);
        let p1 = p.drop_first();
        let q1 = q.drop_first();
        assert forall|e: SourceEntryView| p1.contains(e) <==> q1.contains(e) by {
            if p1.contains(e) {
                let i = choose|i: int| 0 <= i < p1.len() && p1[i] == e;
                assert(entry_lt(p[0], p[i + 1]));
                lemma_entry_lt_order(e, e, e);
                assert(p.contains(e));
                let j = choose|j: int| 0 <= j < q.len() && q[j] == e;
                assert(j != 0);
                assert(q1[j - 1] == e);
            }
            if q1.contains(e) {
                let i = choose|i: int| 0 <= i < q1.len() && q1[i] == e;
                assert(entry_lt(q[0], q[i + 1]));
                lemma_entry_lt_order(e, e, e);
                assert(q.contains(e));
                let j = choose|j: int| 0 <= j < p.len() && p[j] == e;
                assert(j != 0);
                assert(p1[j - 1] == e);
            }
        }
        assert forall|i: int, j: int| 0 <= i < j < p1.len() implies entry_lt(#[trigger] p1[i], #[trigger] p1[j]) by {
            assert(entry_lt(p[i + 1], p[j + 1]));
        }
        assert forall|i: int, j: int| 0 <= i < j < q1.len() implies entry_lt(#[trigger] q1[i], #[trigger] q1[j]) by {
            assert(entry_lt(q[i + 1], q[j + 1]));
        }
        lemma_page_unique(p1, q1);
        assert(p =~= seq![p[0]] + p1);
        assert(q =~= seq![q[0]] + q1);
    }
}

/// An entry with its texts as characters, for comparing.
pub struct EntryKey {
    pub line: u32,
    pub name: Vec<char>,
    pub function: Vec<char>,
    pub message: Vec<char>,
}

impl View for EntryKey {
    type V = SourceEntryView;

    open spec fn view(&self) -> SourceEntryView {
        SourceEntryView { line: self.line, name: self.name@, function: self.function@, message: self.message@ }
    }
}

fn compare_entries(a: &EntryKey, b: &EntryKey) -> (r: i8)
    ensures
        (r < 0) == entry_lt(a@, b@),
        (r == 0) == (a@ == b@),
        (r > 0) == entry_lt(b@, a@),
{
    proof {
        lemma_entry_lt_order(a@, b@, a@);
        lemma_entry_lt_order(b@, a@, b@);
    }
    if a.line < b.line {
        return -1;
    }
    if a.line > b.line {
        return 1;
    }
    let c = compare_text(&a.name, &b.name);
    if c != 0 {
        return c;
    }
    let c = compare_text(&a.function, &b.function);
    if c != 0 {
        return c;
    }
    compare_text(&a.message, &b.message)
}

fn source_entry(remark: &Remark) -> (r: RemarkSourceEntry)
    ensures
        r@ == source_entry_of(remark@),
{
    RemarkSourceEntry {
        name: remark.name.clone(),
        function: remark.function.name.clone(),
        line: match &remark.function.location {
            Some(l) => l.line,
            None => 0,
        },
        message: format_message(remark.message.as_slice(), None),
    }
}

/// The entries of a source page for the remarks at `ids`: each distinct
/// entry once, ordered by line, then name, function and message. The page
/// depends on the set of entries alone (see `lemma_page_unique`).
pub fn source_entries(remarks: &[Remark], ids: &Vec<usize>) -> (r: Vec<RemarkSourceEntry>)
    requires
        forall|k: int| 0 <= k < ids@.len() ==> (#[trigger] ids@[k]) < remarks@.len(),
    ensures
        is_page_of(source_entries_view(r@), entries_at(remarks_view(remarks@), ids@)),
{
    let ghost es = entries_at(remarks_view(remarks@), ids@);
    let mut out: Vec<RemarkSourceEntry> = Vec::new();
    let mut keys: Vec<EntryKey> = Vec::new();
    let mut k: usize = 0;
    while k < ids.len()
        invariant
            k <= ids@.len(),
            forall|m: int| 0 <= m < ids@.len() ==> (#[trigger] ids@[m]) < remarks@.len(),
            es == entries_at(remarks_view(remarks@), ids@),
            keys@.len() == out@.len(),
            forall|m: int| 0 <= m < out@.len() ==> (#[trigger] keys@[m])@ == out@[m]@,
            is_page_of(source_entries_view(out@), es.subrange(0, k as int)),
        decreases ids@.len() - k,
    {
        let e = source_entry(&remarks[ids[k]]);
        let key = EntryKey {
            line: e.line,
            name: chars_of(e.name.as_str()),
            function: chars_of(e.function.as_str()),
            message: chars_of(e.message.as_str()),
        };
        assert(e@ == es[k as int]);
        let ghost page0 = source_entries_view(out@);
        let mut q: usize = 0;
        let mut same = false;
        while q < keys.len()
            invariant_except_break
                !same,
            invariant
                q <= keys@.len(),
                keys@.len() == out@.len(),
                forall|m: int| 0 <= m < out@.len() ==> (#[trigger] keys@[m])@ == out@[m]@,
                page0 == source_entries_view(out@),
                forall|m: int| 0 <= m < q ==> entry_lt(#[trigger] page0[m], key@),
            ensures
                q <= keys@.len(),
                forall|m: int| 0 <= m < q ==> entry_lt(#[trigger] page0[m], key@),
                same ==> q < keys@.len() && page0[q as int] == key@,
                !same ==> q == keys@.len() || entry_lt(key@, page0[q as int]),
            decreases keys@.len() - q,
        {
            let c = compare_entries(&keys[q], &key);
            assert(keys@[q as int]@ == page0[q as int]);
            if c == 0 {
                same = true;
                break;
            }
            if c > 0 {
                break;
            }
            q += 1;
        }
        let ghost pre_es = es.subrange(0, k as int);
        let ghost next_es = es.subrange(0, k as int + 1);
        assert(next_es[k as int] == e@);
        if same {
            assert(page0[q as int] == e@);
            assert(page0.contains(e@));
            assert forall|x: SourceEntryView| page0.contains(x) <==> next_es.contains(x) by {
                if next_es.contains(x) {
                    let m = choose|m: int| 0 <= m < k + 1 && next_es[m] == x;
                    if m < k {
                        assert(pre_es[m] == x);
                    }
                }
                if pre_es.contains(x) {
                    let m = choose|m: int| 0 <= m < k && pre_es[m] == x;
                    assert(next_es[m] == x);
                }
            }
        } else {
            let ghost old_keys = keys@;
            let ghost old_out = out@;
            let ghost ev = e@;
            out.insert(q, e);
            keys.insert(q, key);
            let ghost page = source_entries_view(out@);
            assert(page =~= page0.insert(q as int, ev));
            assert forall|m: int| 0 <= m < out@.len() implies (#[trigger] keys@[m])@ == out@[m]@ by {
                if m < q {
                    assert(keys@[m] == old_keys[m] && out@[m] == old_out[m]);
                } else if m > q {
                    assert(keys@[m] == old_keys[m - 1] && out@[m] == old_out[m - 1]);
                }
            }
            assert forall|i: int, j: int| 0 <= i < j < page.len() implies entry_lt(#[trigger] page[i], #[trigger] page[j]) by {
                if j < q {
                    assert(page[i] == page0[i] && page[j] == page0[j]);
                } else if j == q {
                    assert(page[i] == page0[i]);
                } else if i < q {
                    assert(page[i] == page0[i] && page[j] == page0[j - 1]);
                    lemma_entry_lt_order(page0[i], ev, page0[j - 1]);
                    if j - 1 > q {
                        assert(entry_lt(page0[q as int], page0[j - 1]));
                        lemma_entry_lt_order(ev, page0[q as int], page0[j - 1]);
                    }
                } else if i == q {
                    assert(page[j] == page0[j - 1]);
                    if j - 1 > q {
                        assert(entry_lt(page0[q as int], page0[j - 1]));
                        lemma_entry_lt_order(ev, page0[q as int], page0[j - 1]);
                    }
                } else {
                    assert(page[i] == page0[i - 1] && page[j] == page0[j - 1]);
                }
            }
            assert forall|x: SourceEntryView| page.contains(x) <==> next_es.contains(x) by {
                if next_es.contains(x) {
                    let m = choose|m: int| 0 <= m < k + 1 && next_es[m] == x;
                    if m < k {
                        assert(pre_es[m] == x);
                        assert(pre_es.contains(x));
                        assert(page0.contains(x));
                        let t = choose|t: int| 0 <= t < page0.len() && page0[t] == x;
                        if t < q {
                            assert(page[t] == x);
                        } else {
                            assert(page[t + 1] == x);
                        }
                    } else {
                        assert(page[q as int] == x);
                    }
                }
                if page.contains(x) {
                    let t = choose|t: int| 0 <= t < page.len() && page[t] == x;
                    if t < q {
                        assert(page0[t] == x);
                    } else if t > q {
                        assert(page0[t - 1] == x);
                    }
                    if t != q {
                        assert(page0.contains(x));
                        let m = choose|m: int| 0 <= m < k && pre_es[m] == x;
                        assert(next_es[m] == x);
                    } else {
                        assert(next_es[k as int] == x);
                    }
                }
            }
        }
        k += 1;
    }
    assert(es.subrange(0, ids@.len() as int) =~= es);
    out
}

// ---------------------------------------------------------------------------
// The report.

/// A link from the summary page to the page of a source file.
pub struct SourceFileLink {
    /// The file key.
    pub name: String,
    /// The page, relative to the output directory.
    pub file: String,
    pub remark_count: u64,
}

pub struct LinkView {
    pub name: Seq<char>,
    pub file: Seq<char>,
    pub remark_count: u64,
}

impl View for SourceFileLink {
    type V = LinkView;

    open spec fn view(&self) -> LinkView {
        LinkView { name: self.name@, file: self.file@, remark_count: self.remark_count }
    }
}

/// The page to render for one source file.
pub struct SourcePage {
    /// The file key, as in the diagnostics.
    pub path: String,
    /// The page, relative to the output directory.
    pub output: String,
    /// Where the file's text is read.
    pub source: String,
    pub remarks: Vec<RemarkSourceEntry>,
}

/// The contents of a report, short of the source texts.
pub struct Report {
    /// One row per remark, in order.
    pub remarks: Vec<RemarkIndexEntry>,
    /// The files with remarks: files of the project first, then by
    /// descending number of remarks, then in the order of the index.
    pub source_links: Vec<SourceFileLink>,
    /// One page per file with remarks, in the order of the index.
    pub pages: Vec<SourcePage>,
}

/// The files of an index that have records, in order.
pub open spec fn files_with_remarks(files: Seq<(Seq<char>, Seq<usize>)>) -> Seq<(Seq<char>, Seq<usize>)>
    decreases files.len(),
{
    if files.len() == 0 {
        Seq::empty()
    } else {
        let rest = files_with_remarks(files.drop_last());
        if files.last().1.len() > 0 {
            rest.push(files.last())
        } else {
            rest
        }
    }
}

pub struct PageView {
    pub path: Seq<char>,
    pub output: Seq<char>,
    pub source: Seq<char>,
    pub remarks: Seq<SourceEntryView>,
}

pub open spec fn page_view(p: SourcePage) -> PageView {
    PageView { path: p.path@, output: p.output@, source: p.source@, remarks: source_entries_view(p.remarks@) }
}

pub open spec fn pages_view(v: Seq<SourcePage>) -> Seq<PageView> {
    v.map_values(|p: SourcePage| page_view(p))
}

/// The link to a page; its count is the number of entries the page shows.
pub open spec fn link_of_page(p: PageView) -> LinkView {
    LinkView { name: p.path, file: p.output, remark_count: p.remarks.len() as u64 }
}

/// Files of the project come first, and among them more entries first.
pub open spec fn link_key(p: PageView) -> u128 {
    let class: u128 = if p.path.len() > 0 && p.path[0] == '/' { 0x1_0000_0000_0000_0000 } else { 0 };
    (class + (u64::MAX - (p.remarks.len() as u64))) as u128
}

pub open spec fn link_keys(pages: Seq<PageView>) -> Seq<u128> {
    pages.map_values(|p: PageView| link_key(p))
}

/// The link list: links to the pages in the order `ps`.
pub open spec fn links_of(pages: Seq<PageView>, ps: Seq<usize>) -> Seq<LinkView> {
    ps.map_values(|i: usize| link_of_page(pages[i as int]))
}

pub open spec fn links_view(v: Seq<SourceFileLink>) -> Seq<LinkView> {
    v.map_values(|l: SourceFileLink| l@)
}

/// The page of one file of the index, for its records `f.1`.
pub open spec fn page_matches(
    page: SourcePage,
    rs: Seq<RemarkView>,
    f: (Seq<char>, Seq<usize>),
    source_dir: Seq<char>,
) -> bool {
    &&& page.path@ == f.0
    &&& page.output@ == url_of(Some(SRC_DIR_NAME@), f.0)
    &&& page.source@ == resolved_path(source_dir, f.0)
    &&& is_page_of(source_entries_view(page.remarks@), entries_at(rs, f.1))
}

/// `r` shows the records `rs` of an index with files `files`: a row per
/// record, a page per file with records, and the links to those pages.
pub open spec fn is_report_of(
    r: Report,
    rs: Seq<RemarkView>,
    files: Seq<(Seq<char>, Seq<usize>)>,
    source_dir: Seq<char>,
) -> bool {
    &&& index_entries_view(r.remarks@) == rs.map_values(|x: RemarkView| index_entry_of(x))
    &&& r.pages@.len() == files_with_remarks(files).len()
    &&& forall|i: int|
        0 <= i < r.pages@.len() ==> page_matches(
            #[trigger] r.pages@[i],
            rs,
            files_with_remarks(files)[i],
            source_dir,
        )
    &&& exists|ps: Seq<usize>|
        is_stable_order(link_keys(pages_view(r.pages@)), ps) && links_view(r.source_links@)
            == links_of(pages_view(r.pages@), ps)
}

/// Everything a report shows.
pub open spec fn report_view(r: Report) -> (Seq<IndexEntryView>, Seq<LinkView>, Seq<PageView>) {
    (index_entries_view(r.remarks@), links_view(r.source_links@), pages_view(r.pages@))
}

/// The report is a function of the records, the index and the source root:
/// any two reports of the same input show the same rows, links and pages,
/// in the same order.
pub proof fn lemma_report_deterministic(
    rs: Seq<RemarkView>,
    files: Seq<(Seq<char>, Seq<usize>)>,
    source_dir: Seq<char>,
    r1: Report,
    r2: Report,
)
    requires
        is_report_of(r1, rs, files, source_dir),
        is_report_of(r2, rs, files, source_dir),
    ensures
        report_view(r1) == report_view(r2),
{
    let fs = files_with_remarks(files);
    assert forall|i: int| 0 <= i < r1.pages@.len() implies page_view(r1.pages@[i]) == page_view(
        r2.pages@[i],
    ) by {
        let f = fs[i];
        assert(page_matches(r1.pages@[i], rs, f, source_dir));
        assert(page_matches(r2.pages@[i], rs, f, source_dir));
        lemma_page_unique(source_entries_view(r1.pages@[i].remarks@), source_entries_view(r2.pages@[i].remarks@));
    }
    assert(pages_view(r1.pages@) =~= pages_view(r2.pages@));
    let pv = pages_view(r1.pages@);
    let ps1 = choose|ps: Seq<usize>|
        is_stable_order(link_keys(pv), ps) && links_view(r1.source_links@) == links_of(pv, ps);
    let ps2 = choose|ps: Seq<usize>|
        is_stable_order(link_keys(pv), ps) && links_view(r2.source_links@) == links_of(pv, ps);
    lemma_stable_order_unique(link_keys(pv), ps1, ps2);
}

/// The entries of a file's records do not depend on the order of the
/// records: two lists that hold the same records give each file the same
/// page, whatever order the records were loaded in.
pub proof fn lemma_page_independent_of_record_order(
    rs1: Seq<RemarkView>,
    rs2: Seq<RemarkView>,
    file: Seq<char>,
    p1: Seq<SourceEntryView>,
    p2: Seq<SourceEntryView>,
)
    requires
        rs1.len() <= usize::MAX,
        rs2.len() <= usize::MAX,
        forall|r: RemarkView| rs1.contains(r) <==> rs2.contains(r),
        is_page_of(p1, entries_at(rs1, bucket(rs1, file))),
        is_page_of(p2, entries_at(rs2, bucket(rs2, file))),
    ensures
        p1 == p2,
{
    lemma_bucket_entries(rs1, file);
    lemma_bucket_entries(rs2, file);
    assert forall|e: SourceEntryView| p1.contains(e) <==> p2.contains(e) by {
        if p1.contains(e) {
            let r = choose|r: RemarkView| rs1.contains(r) && located_in(r, file) && source_entry_of(r) == e;
            assert(rs2.contains(r));
        }
        if p2.contains(e) {
            let r = choose|r: RemarkView| rs2.contains(r) && located_in(r, file) && source_entry_of(r) == e;
            assert(rs1.contains(r));
        }
    }
    lemma_page_unique(p1, p2);
}

/// The entries of a file's bucket are those of the records located in it.
proof fn lemma_bucket_entries(rs: Seq<RemarkView>, file: Seq<char>)
    requires
        rs.len() <= usize::MAX,
    ensures
        forall|e: SourceEntryView|
            entries_at(rs, bucket(rs, file)).contains(e) <==> exists|r: RemarkView|
                rs.contains(r) && located_in(r, file) && source_entry_of(r) == e,
{
    let b = bucket(rs, file);
    lemma_bucket_in_range(rs, file);
    assert forall|e: SourceEntryView|
        entries_at(rs, b).contains(e) <==> exists|r: RemarkView|
            rs.contains(r) && located_in(r, file) && source_entry_of(r) == e by {
        if entries_at(rs, b).contains(e) {
            let m = choose|m: int| 0 <= m < b.len() && entries_at(rs, b)[m] == e;
            let r = rs[b[m] as int];
            assert(rs.contains(r) && located_in(r, file) && source_entry_of(r) == e);
        }
        if exists|r: RemarkView| rs.contains(r) && located_in(r, file) && source_entry_of(r) == e {
            let r = choose|r: RemarkView| rs.contains(r) && located_in(r, file) && source_entry_of(r) == e;
            let t = choose|t: int| 0 <= t < rs.len() && rs[t] == r;
            lemma_located_in_bucket(rs, file, t);
            let m = choose|m: int| 0 <= m < b.len() && b[m] == t;
            assert(entries_at(rs, b)[m] == e);
        }
    }
}

/// A record located in a file is in the file's bucket.
proof fn lemma_located_in_bucket(rs: Seq<RemarkView>, file: Seq<char>, t: int)
    requires
        rs.len() <= usize::MAX,
        0 <= t < rs.len(),
        located_in(rs[t], file),
    ensures
        exists|m: int| 0 <= m < bucket(rs, file).len() && bucket(rs, file)[m] == t,
    decreases rs.len(),
{
    let b0 = bucket(rs.drop_last(), file);
    if t < rs.len() - 1 {
        assert(rs.drop_last()[t] == rs[t]);
        lemma_located_in_bucket(rs.drop_last(), file, t);
        let m = choose|m: int| 0 <= m < b0.len() && b0[m] == t;
        assert(bucket(rs, file)[m] == t);
    } else {
        assert(rs.last() == rs[t]);
        assert(located_in(rs.last(), file));
        assert(bucket(rs, file) == b0.push((rs.len() - 1) as usize));
        assert(bucket(rs, file)[b0.len() as int] == t);
    }
}

/// Computes what the report shows of an index: a row per remark, a page per
/// file with remarks, whose text is read under `source_dir` where its key is
/// relative, and the list of links to those pages.
pub fn build_report(index: &RemarkIndex, source_dir: &str) -> (r: Report)
    requires
        index.wf(),
    ensures
        is_report_of(r, remarks_view(index.spec_remarks()), index.spec_files(), source_dir@),
{
    let remarks = index.remarks();
    let ghost rs = remarks_view(index.spec_remarks());
    let n_remarks = remarks.len();
    assert(rs.len() == n_remarks);
    let mut entries: Vec<RemarkIndexEntry> = Vec::new();
    let mut i: usize = 0;
    while i < remarks.len()
        invariant
            i <= remarks@.len(),
            remarks@ == index.spec_remarks(),
            rs == remarks_view(remarks@),
            index_entries_view(entries@) == rs.subrange(0, i as int).map_values(
                |x: RemarkView| index_entry_of(x),
            ),
        decreases remarks@.len() - i,
    {
        let e = remark_index_entry(&remarks[i]);
        let ghost e0 = entries@;
        entries.push(e);
        assert(rs[i as int] == remarks@[i as int]@);
        assert(index_entries_view(entries@) =~= index_entries_view(e0).push(e@));
        assert(index_entries_view(entries@) =~= rs.subrange(0, i as int + 1).map_values(
            |x: RemarkView| index_entry_of(x),
        ));
        i += 1;
    }
    assert(rs.subrange(0, remarks@.len() as int) =~= rs);

    let files = index.files();
    let ghost fv = files_view(files@);
    let mut links: Vec<SourceFileLink> = Vec::new();
    let mut keys: Vec<u128> = Vec::new();
    let mut pages: Vec<SourcePage> = Vec::new();
    let mut j: usize = 0;
    while j < files.len()
        invariant
            j <= files@.len(),
            remarks@ == index.spec_remarks(),
            rs == remarks_view(remarks@),
            fv == files_view(files@),
            fv == index.spec_files(),
            fv == index_of(rs),
            rs.len() <= usize::MAX,
            links_view(links@) == pages_view(pages@).map_values(|p: PageView| link_of_page(p)),
            keys@ == link_keys(pages_view(pages@)),
            pages@.len() == files_with_remarks(fv.subrange(0, j as int)).len(),
            forall|m: int|
                0 <= m < pages@.len() ==> page_matches(
                    #[trigger] pages@[m],
                    rs,
                    files_with_remarks(fv.subrange(0, j as int))[m],
                    source_dir@,
                ),
        decreases files@.len() - j,
    {
        let ghost f = fv[j as int];
        let ghost prev = files_with_remarks(fv.subrange(0, j as int));
        assert(fv.subrange(0, j as int + 1).drop_last() =~= fv.subrange(0, j as int));
        assert(fv.subrange(0, j as int + 1).last() == f);
        let key = &files[j].0;
        let ids = &files[j].1;
        assert(f == (key@, ids@));
        if ids.len() > 0 {
            proof {
                lemma_bucket_in_range(rs, key@);
                assert(fv.len() == files@.len());
                assert(fv[j as int] == (index_keys(rs)[j as int], bucket(rs, index_keys(rs)[j as int])));
                assert(ids@ == bucket(rs, key@));
            }
            let page_remarks = source_entries(remarks, ids);
            let mut output = String::new();
            path_to_relative_url(&mut output, Some(SRC_DIR_NAME), key.as_str());
            let page = SourcePage {
                path: key.clone(),
                output,
                source: resolve_path(source_dir, key.as_str()),
                remarks: page_remarks,
            };
            let count = page.remarks.len() as u64;
            let link = SourceFileLink { name: key.clone(), file: page.output.clone(), remark_count: count };
            let abs = starts_with_char(key.as_str(), '/');
            let class: u128 = if abs { 0x1_0000_0000_0000_0000 } else { 0 };
            let link_sort_key: u128 = class + (u64::MAX - count) as u128;
            let ghost l0 = links@;
            let ghost k0 = keys@;
            let ghost p0 = pages@;
            links.push(link);
            keys.push(link_sort_key);
            pages.push(page);
            assert(files_with_remarks(fv.subrange(0, j as int + 1)) == prev.push(f));
            assert(pages_view(pages@) =~= pages_view(p0).push(page_view(page)));
            assert(links_view(links@) =~= links_view(l0).push(link_of_page(page_view(page))));
            assert(links_view(links@) =~= pages_view(pages@).map_values(|p: PageView| link_of_page(p)));
            assert(keys@ =~= link_keys(pages_view(pages@)));
            assert forall|m: int| 0 <= m < pages@.len() implies page_matches(
                #[trigger] pages@[m],
                rs,
                prev.push(f)[m],
                source_dir@,
            ) by {
                if m < p0.len() {
                    assert(pages@[m] == p0[m]);
                }
            }
        }
        j += 1;
    }
    assert(fv.subrange(0, files@.len() as int) =~= fv);
    assert(links@.len() == links_view(links@).len());
    let order = stable_order(&keys);
    let ghost fs = pages_view(pages@);
    let mut source_links: Vec<SourceFileLink> = Vec::new();
    let mut k: usize = 0;
    while k < order.len()
        invariant
            k <= order@.len(),
            is_stable_order(keys@, order@),
            keys@ == link_keys(fs),
            links_view(links@) == fs.map_values(|p: PageView| link_of_page(p)),
            links@.len() == fs.len(),
            links_view(source_links@) == links_of(fs, order@.subrange(0, k as int)),
        decreases order@.len() - k,
    {
        let p = order[k];
        let l = SourceFileLink {
            name: links[p].name.clone(),
            file: links[p].file.clone(),
            remark_count: links[p].remark_count,
        };
        assert(l@ == links_view(links@)[p as int]);
        assert(l@ == link_of_page(fs[p as int]));
        let ghost s0 = source_links@;
        source_links.push(l);
        assert(links_view(source_links@) =~= links_view(s0).push(l@));
        assert(order@.subrange(0, k as int + 1) =~= order@.subrange(0, k as int).push(p));
        assert(links_view(source_links@) =~= links_of(fs, order@.subrange(0, k as int + 1)));
        k += 1;
    }
    assert(order@.subrange(0, order@.len() as int) =~= order@);
    assert(is_stable_order(link_keys(pages_view(pages@)), order@) && links_view(source_links@) == links_of(
        pages_view(pages@),
        order@,
    ));
    let r = Report { remarks: entries, source_links, pages };
    assert(r.pages@ == pages@ && r.source_links@ == source_links@ && r.remarks@ == entries@);
    assert(exists|ps: Seq<usize>|
        is_stable_order(link_keys(pages_view(r.pages@)), ps) && links_view(r.source_links@)
            == links_of(pages_view(r.pages@), ps));
    assert(is_report_of(r, rs, fv, source_dir@));
    r
}

/// Entries that are equal in name, function, line and message are shown
/// once: a page has no repetitions, and shows every entry of its records.
pub proof fn lemma_page_shows_each_once(page: Seq<SourceEntryView>, es: Seq<SourceEntryView>)
    requires
        is_page_of(page, es),
    ensures
        page.no_duplicates(),
        forall|i: int| 0 <= i < es.len() ==> page.contains(#[trigger] es[i]),
{
    assert forall|i: int, j: int| 0 <= i < page.len() && 0 <= j < page.len() && i != j implies page[i]
        != page[j] by {
        lemma_entry_lt_order(page[i], page[j], page[i]);
        if i < j {
            assert(entry_lt(page[i], page[j]));
        } else {
            assert(entry_lt(page[j], page[i]));
        }
    }
    assert forall|i: int| 0 <= i < es.len() implies page.contains(#[trigger] es[i]) by {
        assert(es.contains(es[i]));
    }
}

/// Pages are made only for files with records.
pub proof fn lemma_pages_have_records(files: Seq<(Seq<char>, Seq<usize>)>)
    ensures
        forall|i: int|
            0 <= i < files_with_remarks(files).len() ==> (#[trigger] files_with_remarks(files)[i]).1.len() > 0,
    decreases files.len(),
{
    if files.len() > 0 {
        lemma_pages_have_records(files.drop_last());
        let rest = files_with_remarks(files.drop_last());
        assert forall|i: int| 0 <= i < files_with_remarks(files).len() implies (#[trigger] files_with_remarks(
            files,
        )[i]).1.len() > 0 by {
            if i < rest.len() {
                assert(files_with_remarks(files)[i] == rest[i]);
            }
        }
    }
}

proof fn lemma_files_with_remarks_from(files: Seq<(Seq<char>, Seq<usize>)>, i: int)
    requires
        0 <= i < files_with_remarks(files).len(),
    ensures
        files.contains(files_with_remarks(files)[i]),
    decreases files.len(),
{
    let rest = files_with_remarks(files.drop_last());
    if i < rest.len() {
        assert(files_with_remarks(files)[i] == rest[i]);
        lemma_files_with_remarks_from(files.drop_last(), i);
        let m = choose|m: int| 0 <= m < files.drop_last().len() && files.drop_last()[m] == rest[i];
        assert(files[m] == rest[i]);
    } else {
        assert(files[files.len() - 1] == files.last());
    }
}

/// A report shows only names of the records it is made of: a kind that no
/// record has appears in no row and on no page.
pub proof fn lemma_report_names(rs: Seq<RemarkView>, source_dir: Seq<char>, r: Report, kind: Seq<char>)
    requires
        rs.len() <= usize::MAX,
        is_report_of(r, rs, index_of(rs), source_dir),
        forall|i: int| 0 <= i < rs.len() ==> (#[trigger] rs[i]).name != kind,
    ensures
        forall|i: int| 0 <= i < r.remarks@.len() ==> (#[trigger] r.remarks@[i]).name@ != kind,
        forall|i: int, j: int|
            0 <= i < r.pages@.len() && 0 <= j < r.pages@[i].remarks@.len() ==> (
            #[trigger] r.pages@[i].remarks@[j]).name@ != kind,
{
    assert forall|i: int| 0 <= i < r.remarks@.len() implies (#[trigger] r.remarks@[i]).name@ != kind by {
        assert(index_entries_view(r.remarks@).len() == r.remarks@.len());
        assert(index_entries_view(r.remarks@)[i] == r.remarks@[i]@);
        assert(index_entries_view(r.remarks@)[i] == index_entry_of(rs[i]));
    }
    let fs = files_with_remarks(index_of(rs));
    assert forall|i: int, j: int|
        0 <= i < r.pages@.len() && 0 <= j < r.pages@[i].remarks@.len() implies (
        #[trigger] r.pages@[i].remarks@[j]).name@ != kind by {
        let f = fs[i];
        let es = entries_at(rs, f.1);
        assert(page_matches(r.pages@[i], rs, f, source_dir));
        let e = r.pages@[i].remarks@[j]@;
        assert(source_entries_view(r.pages@[i].remarks@)[j] == e);
        assert(source_entries_view(r.pages@[i].remarks@).contains(e));
        assert(es.contains(e));
        let m = choose|m: int| 0 <= m < es.len() && es[m] == e;
        lemma_files_with_remarks_from(index_of(rs), i);
        let k = choose|k: int| 0 <= k < index_of(rs).len() && index_of(rs)[k] == f;
        assert(f.1 == bucket(rs, index_keys(rs)[k]));
        lemma_bucket_in_range(rs, index_keys(rs)[k]);
        assert(f.1[m] < rs.len());
        assert(es[m] == source_entry_of(rs[f.1[m] as int]));
    }
}

/// A record of a filtered-out kind reaches neither the list of remarks nor
/// any page of the report of a stream.
pub proof fn lemma_filtered_kind_not_reported(
    opts: OptionsView,
    docs: Seq<Option<YamlNode>>,
    found: Seq<bool>,
    source_dir: Seq<char>,
    r: Report,
    kind: Seq<char>,
)
    requires
        opts.filter_kind.contains(kind),
        select(opts, docs, found).len() <= usize::MAX,
        is_report_of(r, select(opts, docs, found), index_of(select(opts, docs, found)), source_dir),
    ensures
        forall|i: int| 0 <= i < r.remarks@.len() ==> (#[trigger] r.remarks@[i]).name@ != kind,
        forall|i: int, j: int|
            0 <= i < r.pages@.len() && 0 <= j < r.pages@[i].remarks@.len() ==> (
            #[trigger] r.pages@[i].remarks@[j]).name@ != kind,
{
    let rs = select(opts, docs, found);
    lemma_filtered_kinds_dropped(opts, docs, found);
    assert forall|i: int| 0 <= i < rs.len() implies (#[trigger] rs[i]).name != kind by {
        assert(!opts.filter_kind.contains(rs[i].name));
    }
    lemma_report_names(rs, source_dir, r, kind);
}

} // verus!
