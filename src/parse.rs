//! The shape of remark documents, and their decoding from YAML.
use crate::remark::LocationView;
use crate::text::text_eq;
use crate::yaml::YamlNode;
use vstd::prelude::*;

verus! {

/// A `DebugLoc` entry: `{ File, Line, Column }`.
pub struct DebugLocation {
    pub file: String,
    pub line: u32,
    pub column: u32,
}

impl View for DebugLocation {
    type V = LocationView;

    open spec fn view(&self) -> LocationView {
        LocationView { file: self.file@, line: self.line, column: self.column }
    }
}

pub open spec fn option_debug_location_view(l: Option<DebugLocation>) -> Option<LocationView> {
    match l {
        Some(l) => Some(l@),
        None => None,
    }
}

/// An argument `{ String: text }`.
pub struct RemarkArgString {
    pub string: String,
}

/// An argument `{ Callee: symbol, DebugLoc: ... }`; the location may be absent.
pub struct RemarkArgCallee {
    pub callee: String,
    pub debug_loc: Option<DebugLocation>,
}

/// An argument `{ Caller: symbol, DebugLoc: ... }`; the location may be absent.
pub struct RemarkArgCaller {
    pub caller: String,
    pub debug_loc: Option<DebugLocation>,
}

/// An argument `{ Reason: text }`.
pub struct RemarkArgReason {
    pub reason: String,
}

/// Any other argument, a bag of keys and values: its `DebugLoc` entry, where
/// one is there and is a valid location, and the texts of its other scalar
/// values (booleans, numbers, strings), in the order of the document.
pub struct RemarkArgOther {
    pub debug_loc: Option<DebugLocation>,
    pub values: Vec<String>,
}

/// One element of a remark's argument list.
pub enum RemarkArg {
    String(RemarkArgString),
    Callee(RemarkArgCallee),
    Caller(RemarkArgCaller),
    Reason(RemarkArgReason),
    Other(RemarkArgOther),
}

pub enum ArgView {
    Text(Seq<char>),
    Callee(Seq<char>, Option<LocationView>),
    Caller(Seq<char>, Option<LocationView>),
    Reason(Seq<char>),
    Other(Option<LocationView>, Seq<Seq<char>>),
}

pub open spec fn strings_view(v: Seq<String>) -> Seq<Seq<char>> {
    v.map_values(|s: String| s@)
}

impl View for RemarkArg {
    type V = ArgView;

    open spec fn view(&self) -> ArgView {
        match self {
            RemarkArg::String(a) => ArgView::Text(a.string@),
            RemarkArg::Callee(a) => ArgView::Callee(a.callee@, option_debug_location_view(a.debug_loc)),
            RemarkArg::Caller(a) => ArgView::Caller(a.caller@, option_debug_location_view(a.debug_loc)),
            RemarkArg::Reason(a) => ArgView::Reason(a.reason@),
            RemarkArg::Other(a) => ArgView::Other(
                option_debug_location_view(a.debug_loc),
                strings_view(a.values@),
            ),
        }
    }
}

pub open spec fn args_view(v: Seq<RemarkArg>) -> Seq<ArgView> {
    v.map_values(|a: RemarkArg| a@)
}

/// A `!Missed` document.
pub struct MissedRemark {
    pub pass: String,
    pub name: String,
    pub debug_loc: Option<DebugLocation>,
    pub function: String,
    pub args: Vec<RemarkArg>,
}

pub struct MissedView {
    pub pass: Seq<char>,
    pub name: Seq<char>,
    pub debug_loc: Option<LocationView>,
    pub function: Seq<char>,
    pub args: Seq<ArgView>,
}

impl View for MissedRemark {
    type V = MissedView;

    open spec fn view(&self) -> MissedView {
        MissedView {
            pass: self.pass@,
            name: self.name@,
            debug_loc: option_debug_location_view(self.debug_loc),
            function: self.function@,
            args: args_view(self.args@),
        }
    }
}

/// One document of a remark file, by its tag. Documents with another tag, or
/// with none, are `Unrecognized`.
pub enum Remark {
    Missed(MissedRemark),
    Passed,
    Analysis,
    Unrecognized,
}

pub enum DocumentView {
    Missed(MissedView),
    Passed,
    Analysis,
    Unrecognized,
}

impl View for Remark {
    type V = DocumentView;

    open spec fn view(&self) -> DocumentView {
        match self {
            Remark::Missed(m) => DocumentView::Missed(m@),
            Remark::Passed => DocumentView::Passed,
            Remark::Analysis => DocumentView::Analysis,
            Remark::Unrecognized => DocumentView::Unrecognized,
        }
    }
}

// ---------------------------------------------------------------------------
// What a YAML value decodes to.

pub open spec fn is_key(k: YamlNode, key: Seq<char>) -> bool {
    match k {
        YamlNode::Str(s) => s@ == key,
        _ => false,
    }
}

/// The value of the first entry under `key`, from entry `i` on.
pub open spec fn lookup_from(entries: Seq<(YamlNode, YamlNode)>, key: Seq<char>, i: int) -> Option<YamlNode>
    decreases entries.len() - i,
{
    if i < 0 || i >= entries.len() {
        None
    } else if is_key(entries[i].0, key) {
        Some(entries[i].1)
    } else {
        lookup_from(entries, key, i + 1)
    }
}

pub open spec fn lookup(entries: Seq<(YamlNode, YamlNode)>, key: Seq<char>) -> Option<YamlNode> {
    lookup_from(entries, key, 0)
}

pub open spec fn str_of(n: Option<YamlNode>) -> Option<Seq<char>> {
    match n {
        Some(YamlNode::Str(s)) => Some(s@),
        _ => None,
    }
}

pub open spec fn u32_of(n: Option<YamlNode>) -> Option<u32> {
    match n {
        Some(YamlNode::Number(_, Some(v))) => if v <= u32::MAX {
            Some(v as u32)
        } else {
            None
        },
        _ => None,
    }
}

/// The text of a scalar: a boolean, a number or a string.
pub open spec fn scalar_text(n: YamlNode) -> Option<Seq<char>> {
    match n {
        YamlNode::Bool(b) => Some(if b { "true"@ } else { "false"@ }),
        YamlNode::Number(t, _) => Some(t@),
        YamlNode::Str(s) => Some(s@),
        _ => None,
    }
}

pub open spec fn decode_location(n: YamlNode) -> Option<LocationView> {
    match n {
        YamlNode::Mapping(es) => {
            let file = str_of(lookup(es@, "File"@));
            let line = u32_of(lookup(es@, "Line"@));
            let column = u32_of(lookup(es@, "Column"@));
            if file is Some && line is Some && column is Some {
                Some(LocationView { file: file->0, line: line->0, column: column->0 })
            } else {
                None
            }
        },
        _ => None,
    }
}

/// An optional location field: absent or null is `Some(None)`, an invalid
/// one fails (`None`).
pub open spec fn decode_opt_location(n: Option<YamlNode>) -> Option<Option<LocationView>> {
    match n {
        None => Some(None),
        Some(YamlNode::Null) => Some(None),
        Some(v) => match decode_location(v) {
            Some(l) => Some(Some(l)),
            None => None,
        },
    }
}

pub open spec fn all_keys_str(es: Seq<(YamlNode, YamlNode)>) -> bool {
    forall|i: int| 0 <= i < es.len() ==> (#[trigger] es[i]).0 is Str
}

/// The scalar texts of a bag's entries other than `DebugLoc`, in order.
pub open spec fn bag_values(es: Seq<(YamlNode, YamlNode)>) -> Seq<Seq<char>>
    decreases es.len(),
{
    if es.len() == 0 {
        Seq::empty()
    } else {
        let rest = bag_values(es.drop_last());
        let e = es.last();
        if is_key(e.0, "DebugLoc"@) {
            rest
        } else {
            match scalar_text(e.1) {
                Some(t) => rest.push(t),
                None => rest,
            }
        }
    }
}

/// The first argument shape that fits, in the order `String`, `Callee`,
/// `Caller`, `Reason`, and last any mapping with string keys.
pub open spec fn decode_arg(n: YamlNode) -> Option<ArgView> {
    match n {
        YamlNode::Mapping(es) => {
            let es = es@;
            let loc = decode_opt_location(lookup(es, "DebugLoc"@));
            if str_of(lookup(es, "String"@)) is Some {
                Some(ArgView::Text(str_of(lookup(es, "String"@))->0))
            } else if str_of(lookup(es, "Callee"@)) is Some && loc is Some {
                Some(ArgView::Callee(str_of(lookup(es, "Callee"@))->0, loc->0))
            } else if str_of(lookup(es, "Caller"@)) is Some && loc is Some {
                Some(ArgView::Caller(str_of(lookup(es, "Caller"@))->0, loc->0))
            } else if str_of(lookup(es, "Reason"@)) is Some {
                Some(ArgView::Reason(str_of(lookup(es, "Reason"@))->0))
            } else if all_keys_str(es) {
                let bag_loc = match lookup(es, "DebugLoc"@) {
                    Some(v) => decode_location(v),
                    None => None,
                };
                Some(ArgView::Other(bag_loc, bag_values(es)))
            } else {
                None
            }
        },
        _ => None,
    }
}

/// All arguments decode, or the list fails.
pub open spec fn decode_args(items: Seq<YamlNode>) -> Option<Seq<ArgView>>
    decreases items.len(),
{
    if items.len() == 0 {
        Some(Seq::empty())
    } else {
        match (decode_args(items.drop_last()), decode_arg(items.last())) {
            (Some(rest), Some(a)) => Some(rest.push(a)),
            _ => None,
        }
    }
}

pub open spec fn decode_missed(n: YamlNode) -> Option<MissedView> {
    match n {
        YamlNode::Mapping(es) => {
            let es = es@;
            let pass = str_of(lookup(es, "Pass"@));
            let name = str_of(lookup(es, "Name"@));
            let loc = decode_opt_location(lookup(es, "DebugLoc"@));
            let function = str_of(lookup(es, "Function"@));
            let args = match lookup(es, "Args"@) {
                Some(YamlNode::Sequence(items)) => decode_args(items@),
                _ => None,
            };
            if pass is Some && name is Some && loc is Some && function is Some && args is Some {
                Some(MissedView {
                    pass: pass->0,
                    name: name->0,
                    debug_loc: loc->0,
                    function: function->0,
                    args: args->0,
                })
            } else {
                None
            }
        },
        _ => None,
    }
}

/// What a document decodes to; `None` where it is malformed.
pub open spec fn decode_document(n: YamlNode) -> Option<DocumentView> {
    match n {
        YamlNode::Tagged(tag, inner) => if tag@ == "!Missed"@ {
            match decode_missed(*inner) {
                Some(m) => Some(DocumentView::Missed(m)),
                None => None,
            }
        } else if tag@ == "!Passed"@ {
            Some(DocumentView::Passed)
        } else if tag@ == "!Analysis"@ {
            Some(DocumentView::Analysis)
        } else {
            Some(DocumentView::Unrecognized)
        },
        _ => Some(DocumentView::Unrecognized),
    }
}

// ---------------------------------------------------------------------------
// Decoding.

pub open spec fn option_text_view(s: Option<String>) -> Option<Seq<char>> {
    match s {
        Some(s) => Some(s@),
        None => None,
    }
}

/// The index of the first entry under `key`.
fn find_entry(entries: &Vec<(YamlNode, YamlNode)>, key: &str) -> (r: Option<usize>)
    ensures
        match r {
            Some(i) => i < entries@.len() && lookup(entries@, key@) == Some(entries@[i as int].1),
            None => lookup(entries@, key@) is None,
        },
{
    let mut i: usize = 0;
    while i < entries.len()
        invariant
            i <= entries@.len(),
            lookup(entries@, key@) == lookup_from(entries@, key@, i as int),
        decreases entries@.len() - i,
    {
        let hit = match &entries[i].0 {
            YamlNode::Str(s) => text_eq(s.as_str(), key),
            _ => false,
        };
        if hit {
            return Some(i);
        }
        i += 1;
    }
    None
}

fn entry_str(entries: &Vec<(YamlNode, YamlNode)>, key: &str) -> (r: Option<String>)
    ensures
        option_text_view(r) == str_of(lookup(entries@, key@)),
{
    match find_entry(entries, key) {
        Some(i) => match &entries[i].1 {
            YamlNode::Str(s) => Some(s.clone()),
            _ => None,
        },
        None => None,
    }
}

fn entry_u32(entries: &Vec<(YamlNode, YamlNode)>, key: &str) -> (r: Option<u32>)
    ensures
        r == u32_of(lookup(entries@, key@)),
{
    match find_entry(entries, key) {
        Some(i) => match &entries[i].1 {
            YamlNode::Number(_, Some(v)) => if *v <= u32::MAX as u64 {
                Some(*v as u32)
            } else {
                None
            },
            _ => None,
        },
        None => None,
    }
}

fn scalar_text_of(n: &YamlNode) -> (r: Option<String>)
    ensures
        option_text_view(r) == scalar_text(*n),
{
    match n {
        YamlNode::Bool(b) => Some(String::from_str(if *b { "true" } else { "false" })),
        YamlNode::Number(t, _) => Some(t.clone()),
        YamlNode::Str(s) => Some(s.clone()),
        _ => None,
    }
}

/// Decodes a `{ File, Line, Column }` mapping.
pub fn decode_debug_location(n: &YamlNode) -> (r: Option<DebugLocation>)
    ensures
        option_debug_location_view(r) == decode_location(*n),
{
    match n {
        YamlNode::Mapping(es) => {
            let file = entry_str(es, "File");
            let line = entry_u32(es, "Line");
            let column = entry_u32(es, "Column");
            match (file, line, column) {
                (Some(file), Some(line), Some(column)) => Some(DebugLocation { file, line, column }),
                _ => None,
            }
        },
        _ => None,
    }
}

/// The optional `DebugLoc` entry of a mapping; `None` where it is there but
/// is not a location.
fn decode_debug_loc_entry(entries: &Vec<(YamlNode, YamlNode)>) -> (r: Option<Option<DebugLocation>>)
    ensures
        match r {
            Some(l) => decode_opt_location(lookup(entries@, "DebugLoc"@)) == Some(option_debug_location_view(l)),
            None => decode_opt_location(lookup(entries@, "DebugLoc"@)) is None,
        },
{
    match find_entry(entries, "DebugLoc") {
        None => Some(None),
        Some(i) => match &entries[i].1 {
            YamlNode::Null => Some(None),
            v => match decode_debug_location(v) {
                Some(l) => Some(Some(l)),
                None => None,
            },
        },
    }
}

fn decode_bag(es: &Vec<(YamlNode, YamlNode)>) -> (r: Option<RemarkArgOther>)
    ensures
        match r {
            Some(o) => all_keys_str(es@) && o.debug_loc is Some == (match lookup(es@, "DebugLoc"@) {
                Some(v) => decode_location(v) is Some,
                None => false,
            }) && option_debug_location_view(o.debug_loc) == match lookup(es@, "DebugLoc"@) {
                Some(v) => decode_location(v),
                None => None,
            } && strings_view(o.values@) == bag_values(es@),
            None => !all_keys_str(es@),
        },
{
    let mut values: Vec<String> = Vec::new();
    let mut i: usize = 0;
    while i < es.len()
        invariant
            i <= es@.len(),
            strings_view(values@) == bag_values(es@.subrange(0, i as int)),
            forall|j: int| 0 <= j < i ==> (#[trigger] es@[j]).0 is Str,
        decreases es@.len() - i,
    {
        let ghost prefix = es@.subrange(0, i as int + 1);
        assert(prefix.drop_last() =~= es@.subrange(0, i as int));
        assert(prefix.last() == es@[i as int]);
        let is_debug_loc = match &es[i].0 {
            YamlNode::Str(k) => text_eq(k.as_str(), "DebugLoc"),
            _ => {
                assert(!all_keys_str(es@)) by {
                    assert(!(es@[i as int].0 is Str));
                }
                return None;
            },
        };
        if !is_debug_loc {
            match scalar_text_of(&es[i].1) {
                Some(t) => {
                    let ghost old_values = values@;
                    values.push(t);
                    assert(strings_view(values@) =~= strings_view(old_values).push(t@));
                },
                None => {},
            }
        }
        i += 1;
    }
    assert(es@.subrange(0, es@.len() as int) =~= es@);
    let debug_loc = match find_entry(es, "DebugLoc") {
        Some(k) => decode_debug_location(&es[k].1),
        None => None,
    };
    Some(RemarkArgOther { debug_loc, values })
}

/// Decodes one element of an argument list.
pub fn decode_remark_arg(n: &YamlNode) -> (r: Option<RemarkArg>)
    ensures
        match r {
            Some(a) => decode_arg(*n) == Some(a@),
            None => decode_arg(*n) is None,
        },
{
    match n {
        YamlNode::Mapping(es) => {
            let loc = decode_debug_loc_entry(es);
            if let Some(string) = entry_str(es, "String") {
                return Some(RemarkArg::String(RemarkArgString { string }));
            }
            if let Some(l) = loc {
                if let Some(callee) = entry_str(es, "Callee") {
                    return Some(RemarkArg::Callee(RemarkArgCallee { callee, debug_loc: l }));
                }
                if let Some(caller) = entry_str(es, "Caller") {
                    return Some(RemarkArg::Caller(RemarkArgCaller { caller, debug_loc: l }));
                }
            } else {
                assert(decode_opt_location(lookup(es@, "DebugLoc"@)) is None);
            }
            if let Some(reason) = entry_str(es, "Reason") {
                return Some(RemarkArg::Reason(RemarkArgReason { reason }));
            }
            match decode_bag(es) {
                Some(o) => Some(RemarkArg::Other(o)),
                None => None,
            }
        },
        _ => None,
    }
}

fn decode_remark_args(items: &Vec<YamlNode>) -> (r: Option<Vec<RemarkArg>>)
    ensures
        match r {
            Some(a) => decode_args(items@) == Some(args_view(a@)),
            None => decode_args(items@) is None,
        },
{
    let mut out: Vec<RemarkArg> = Vec::new();
    let mut i: usize = 0;
    while i < items.len()
        invariant
            i <= items@.len(),
            decode_args(items@.subrange(0, i as int)) == Some(args_view(out@)),
        decreases items@.len() - i,
    {
        let ghost prefix = items@.subrange(0, i as int + 1);
        assert(prefix.drop_last() =~= items@.subrange(0, i as int));
        assert(prefix.last() == items@[i as int]);
        match decode_remark_arg(&items[i]) {
            Some(a) => {
                let ghost old_out = out@;
                out.push(a);
                assert(args_view(out@) =~= args_view(old_out).push(a@));
            },
            None => {
                assert(decode_args(items@) is None) by {
                    lemma_decode_args_prefix_fails(items@, i as int + 1);
                }
                return None;
            },
        }
        i += 1;
    }
    assert(items@.subrange(0, items@.len() as int) =~= items@);
    Some(out)
}

/// Once a prefix of the argument list fails, the whole list fails.
proof fn lemma_decode_args_prefix_fails(items: Seq<YamlNode>, n: int)
    requires
        0 <= n <= items.len(),
        decode_args(items.subrange(0, n)) is None,
    ensures
        decode_args(items) is None,
    decreases items.len() - n,
{
    if n < items.len() {
        let next = items.subrange(0, n + 1);
        assert(next.drop_last() =~= items.subrange(0, n));
        lemma_decode_args_prefix_fails(items, n + 1);
    } else {
        assert(items.subrange(0, n) =~= items);
    }
}

/// Decodes a `!Missed` document's mapping.
fn decode_missed_remark(n: &YamlNode) -> (r: Option<MissedRemark>)
    ensures
        match r {
            Some(m) => decode_missed(*n) == Some(m@),
            None => decode_missed(*n) is None,
        },
{
    match n {
        YamlNode::Mapping(es) => {
            let pass = entry_str(es, "Pass");
            let name = entry_str(es, "Name");
            let loc = decode_debug_loc_entry(es);
            let function = entry_str(es, "Function");
            let args = match find_entry(es, "Args") {
                Some(i) => match &es[i].1 {
                    YamlNode::Sequence(items) => decode_remark_args(items),
                    _ => None,
                },
                None => None,
            };
            match (pass, name, loc, function, args) {
                (Some(pass), Some(name), Some(debug_loc), Some(function), Some(args)) => Some(
                    MissedRemark { pass, name, debug_loc, function, args },
                ),
                _ => None,
            }
        },
        _ => None,
    }
}

/// Decodes one document by its tag; `None` where it is malformed.
pub fn decode_remark(n: &YamlNode) -> (r: Option<Remark>)
    ensures
        match r {
            Some(d) => decode_document(*n) == Some(d@),
            None => decode_document(*n) is None,
        },
{
    match n {
        YamlNode::Tagged(tag, inner) => {
            if text_eq(tag.as_str(), "!Missed") {
                match decode_missed_remark(inner) {
                    Some(m) => Some(Remark::Missed(m)),
                    None => None,
                }
            } else if text_eq(tag.as_str(), "!Passed") {
                Some(Remark::Passed)
            } else if text_eq(tag.as_str(), "!Analysis") {
                Some(Remark::Analysis)
            } else {
                Some(Remark::Unrecognized)
            }
        },
        _ => Some(Remark::Unrecognized),
    }
}

} // verus!
