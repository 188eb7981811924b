//! Remarks grouped by the source file of their location.
use crate::remark::{MessagePart, MessagePartView, Remark, RemarkView, remarks_view};
use vstd::prelude::*;

verus! {

/// Position of a remark in the index's list of remarks.
pub type RemarkId = usize;

/// Whether a record's location is in `file`.
pub open spec fn located_in(r: RemarkView, file: Seq<char>) -> bool {
    r.function.location is Some && r.function.location->0.file == file
}

/// The files of the annotated parts of a message, in order.
pub open spec fn annotated_files(parts: Seq<MessagePartView>) -> Seq<Seq<char>>
    decreases parts.len(),
{
    if parts.len() == 0 {
        Seq::empty()
    } else {
        let rest = annotated_files(parts.drop_last());
        match parts.last() {
            MessagePartView::Annotated { location, .. } => rest.push(location.file),
            MessagePartView::Text(_) => rest,
        }
    }
}

/// The files that a record refers to: that of its location, then those of
/// its message.
pub open spec fn referenced_files(r: RemarkView) -> Seq<Seq<char>> {
    match r.function.location {
        Some(l) => seq![l.file] + annotated_files(r.message),
        None => annotated_files(r.message),
    }
}

pub open spec fn add_key(keys: Seq<Seq<char>>, k: Seq<char>) -> Seq<Seq<char>> {
    if keys.contains(k) {
        keys
    } else {
        keys.push(k)
    }
}

pub open spec fn add_keys(keys: Seq<Seq<char>>, ks: Seq<Seq<char>>) -> Seq<Seq<char>>
    decreases ks.len(),
{
    if ks.len() == 0 {
        keys
    } else {
        add_key(add_keys(keys, ks.drop_last()), ks.last())
    }
}

/// Every file that the records refer to, once, in the order of first mention.
pub open spec fn index_keys(rs: Seq<RemarkView>) -> Seq<Seq<char>>
    decreases rs.len(),
{
    if rs.len() == 0 {
        Seq::empty()
    } else {
        add_keys(index_keys(rs.drop_last()), referenced_files(rs.last()))
    }
}

/// The positions of the records located in `file`, in order.
pub open spec fn bucket(rs: Seq<RemarkView>, file: Seq<char>) -> Seq<RemarkId>
    decreases rs.len(),
{
    if rs.len() == 0 {
        Seq::empty()
    } else {
        let rest = bucket(rs.drop_last(), file);
        if located_in(rs.last(), file) {
            rest.push((rs.len() - 1) as RemarkId)
        } else {
            rest
        }
    }
}

/// The index of a list of records: each referenced file with its bucket.
pub open spec fn index_of(rs: Seq<RemarkView>) -> Seq<(Seq<char>, Seq<RemarkId>)> {
    index_keys(rs).map_values(|k: Seq<char>| (k, bucket(rs, k)))
}

/// The remarks, and for each file that one of them refers to (by its
/// location or in its message), the remarks located in it. A file that is
/// only referred to has an empty list. Files are kept in the order of their
/// first mention, so that what is made of the index does not depend on a
/// hasher.
pub struct RemarkIndex {
    files: Vec<(String, Vec<RemarkId>)>,
    remarks: Vec<Remark>,
}

pub open spec fn files_view(files: Seq<(String, Vec<RemarkId>)>) -> Seq<(Seq<char>, Seq<RemarkId>)> {
    files.map_values(|e: (String, Vec<RemarkId>)| (e.0@, e.1@))
}

pub open spec fn keys_view(files: Seq<(String, Vec<RemarkId>)>) -> Seq<Seq<char>> {
    files.map_values(|e: (String, Vec<RemarkId>)| e.0@)
}

impl RemarkIndex {
    pub closed spec fn spec_files(&self) -> Seq<(Seq<char>, Seq<RemarkId>)> {
        files_view(self.files@)
    }

    pub closed spec fn spec_remarks(&self) -> Seq<Remark> {
        self.remarks@
    }

    /// The files and lists are those of the remarks.
    pub open spec fn wf(&self) -> bool {
        self.spec_files() == index_of(remarks_view(self.spec_remarks()))
    }

    /// Builds the index of a list of remarks.
    pub fn new(remarks: Vec<Remark>) -> (r: Self)
        ensures
            r.spec_remarks() == remarks@,
            r.spec_files() == index_of(remarks_view(remarks@)),
            r.wf(),
    {
        let ghost rs = remarks_view(remarks@);
        let mut files: Vec<(String, Vec<RemarkId>)> = Vec::new();
        let mut i: usize = 0;
        while i < remarks.len()
            invariant
                i <= remarks@.len(),
                rs == remarks_view(remarks@),
                keys_view(files@) == index_keys(rs.subrange(0, i as int)),
                forall|j: int|
                    0 <= j < files@.len() ==> (#[trigger] files@[j]).1@ == bucket(
                        rs.subrange(0, i as int),
                        files@[j].0@,
                    ),
            decreases remarks@.len() - i,
        {
            let ghost pre = rs.subrange(0, i as int);
            let ghost next = rs.subrange(0, i as int + 1);
            let ghost r = rs[i as int];
            assert(next.drop_last() =~= pre);
            assert(next.last() == r);
            proof {
                lemma_keys_complete(pre);
            }
            let remark = &remarks[i];
            let ghost keys0 = keys_view(files@);
            let ghost loc_keys = match r.function.location {
                Some(l) => seq![l.file],
                None => Seq::<Seq<char>>::empty(),
            };
            match &remark.function.location {
                Some(location) => {
                    let ghost files0 = files@;
                    let pos = find_or_add_key(&mut files, &location.file);
                    let ghost before = files@;
                    proof {
                        if before.len() > files0.len() {
                            lemma_unreferenced_bucket_empty(pre, location.file@);
                        }
                    }
                    assert(r == remark@);
                    assert(located_in(r, location.file@));
                    let mut entry = files.remove(pos);
                    entry.1.push(i);
                    files.insert(pos, entry);
                    assert(files@.len() == before.len());
                    assert forall|j: int| 0 <= j < files@.len() implies (#[trigger] files@[j]).0@
                        == before[j].0@ by {
                        if j != pos {
                            assert(files@[j] == before[j]);
                        }
                    }
                    assert(keys_view(files@) =~= keys_view(before));
                    assert(loc_keys.drop_last() =~= Seq::<Seq<char>>::empty());
                    assert(loc_keys.last() == location.file@);
                    assert(loc_keys == seq![location.file@]);
                    assert(add_keys(keys0, loc_keys.drop_last()) == keys0);
                    assert(keys_view(files@) == add_keys(keys0, loc_keys));
                    proof {
                        lemma_add_keys_unique(keys0, loc_keys);
                    }
                    assert forall|j: int| 0 <= j < files@.len() implies (#[trigger] files@[j]).1@
                        == bucket(next, files@[j].0@) by {
                        if j != pos {
                            assert(files@[j] == before[j]);
                            assert(keys_view(before)[j] == before[j].0@);
                            assert(keys_view(before)[pos as int] == before[pos as int].0@);
                        }
                    }
                },
                None => {
                    assert forall|j: int| 0 <= j < files@.len() implies (#[trigger] files@[j]).1@
                        == bucket(next, files@[j].0@) by {}
                    assert(add_keys(keys0, loc_keys) == keys0);
                },
            }
            let ghost parts = crate::remark::parts_view(remark.message@);
            assert(parts.subrange(0, 0) =~= Seq::<MessagePartView>::empty());
            assert(loc_keys + annotated_files(parts.subrange(0, 0)) =~= loc_keys);
            let mut k: usize = 0;
            while k < remark.message.len()
                invariant
                    k <= remark.message@.len(),
                    parts == crate::remark::parts_view(remark.message@),
                    keys0 == index_keys(pre),
                    next.len() == i + 1,
                    next.drop_last() == pre,
                    next.last() == r,
                    r == remark@,
                    r.function.location is Some ==> loc_keys == seq![r.function.location->0.file],
                    r.function.location is None ==> loc_keys == Seq::<Seq<char>>::empty(),
                    keys_view(files@) == add_keys(keys0, loc_keys + annotated_files(parts.subrange(0, k as int))),
                    forall|j: int|
                        0 <= j < files@.len() ==> (#[trigger] files@[j]).1@ == bucket(next, files@[j].0@),
                decreases remark.message@.len() - k,
            {
                let ghost ks = loc_keys + annotated_files(parts.subrange(0, k as int));
                assert(parts.subrange(0, k as int + 1).drop_last() =~= parts.subrange(0, k as int));
                assert(parts.subrange(0, k as int + 1).last() == parts[k as int]);
                match &remark.message[k] {
                    MessagePart::AnnotatedString { location, .. } => {
                        let ghost before = files@;
                        let pos = find_or_add_key(&mut files, &location.file);
                        assert((loc_keys + annotated_files(parts.subrange(0, k as int + 1))) =~= ks.push(
                            location.file@,
                        ));
                        assert(ks.push(location.file@).drop_last() =~= ks);
                        assert forall|j: int| 0 <= j < files@.len() implies (#[trigger] files@[j]).1@
                            == bucket(next, files@[j].0@) by {
                            if j == before.len() {
                                let f = location.file@;
                                assert(files@[j].0@ == f);
                                assert(!keys_view(before).contains(f));
                                lemma_add_keys_contains(keys0, ks, f);
                                lemma_unreferenced_bucket_empty(pre, f);
                                if loc_keys.len() > 0 {
                                    assert(ks[0] == loc_keys[0]);
                                    assert(ks.contains(loc_keys[0]));
                                }
                                assert(!located_in(r, f));
                                assert(bucket(next, f) == bucket(pre, f));
                            } else {
                                assert(files@[j] == before[j]);
                            }
                        }
                    },
                    MessagePart::String(_) => {
                        assert((loc_keys + annotated_files(parts.subrange(0, k as int + 1))) =~= ks);
                    },
                }
                k += 1;
            }
            assert(parts.subrange(0, parts.len() as int) =~= parts);
            assert(loc_keys + annotated_files(parts) =~= referenced_files(r));
            i += 1;
        }
        assert(rs.subrange(0, remarks@.len() as int) =~= rs);
        RemarkIndex { files, remarks }
    }

    pub fn remarks(&self) -> (r: &[Remark])
        ensures
            r@.len() == remarks_view(self.spec_remarks()).len(),
            r@ == self.spec_remarks(),
    {
        self.remarks.as_slice()
    }

    pub fn files(&self) -> (r: &Vec<(String, Vec<RemarkId>)>)
        ensures
            files_view(r@) == self.spec_files(),
    {
        &self.files
    }
}

/// The position of `key` among the keys, added with an empty list where it
/// is not there.
fn find_or_add_key(files: &mut Vec<(String, Vec<RemarkId>)>, key: &String) -> (pos: usize)
    ensures
        keys_view(final(files)@) == add_key(keys_view(old(files)@), key@),
        pos < final(files)@.len(),
        final(files)@[pos as int].0@ == key@,
        final(files)@.len() == old(files)@.len() || final(files)@.len() == old(files)@.len() + 1,
        forall|j: int| 0 <= j < old(files)@.len() ==> final(files)@[j] == old(files)@[j],
        final(files)@.len() == old(files)@.len() + 1 ==> pos == old(files)@.len(),
        final(files)@.len() == old(files)@.len() + 1 ==> final(files)@[old(files)@.len() as int].1@
            == Seq::<RemarkId>::empty() && !keys_view(old(files)@).contains(key@),
{
    let mut j: usize = 0;
    while j < files.len()
        invariant
            j <= files@.len(),
            files@ == old(files)@,
            forall|m: int| 0 <= m < j ==> files@[m].0@ != key@,
        decreases files@.len() - j,
    {
        if files[j].0 == *key {
            assert(keys_view(files@)[j as int] == key@);
            return j;
        }
        j += 1;
    }
    let ghost before = files@;
    assert(!keys_view(before).contains(key@)) by {
        if keys_view(before).contains(key@) {
            let m = choose|m: int| 0 <= m < keys_view(before).len() && keys_view(before)[m] == key@;
            assert(before[m].0@ == key@);
        }
    }
    files.push((key.clone(), Vec::new()));
    assert(keys_view(files@) =~= keys_view(before).push(key@));
    j
}

/// The positions in a bucket are positions of the records.
pub proof fn lemma_bucket_in_range(rs: Seq<RemarkView>, file: Seq<char>)
    requires
        rs.len() <= usize::MAX,
    ensures
        forall|j: int|
            0 <= j < bucket(rs, file).len() ==> (#[trigger] bucket(rs, file)[j]) < rs.len() && located_in(
                rs[bucket(rs, file)[j] as int],
                file,
            ),
    decreases rs.len(),
{
    if rs.len() > 0 {
        lemma_bucket_in_range(rs.drop_last(), file);
        let rest = bucket(rs.drop_last(), file);
        assert forall|j: int| 0 <= j < bucket(rs, file).len() implies (#[trigger] bucket(rs, file)[j]) < rs.len()
            && located_in(rs[bucket(rs, file)[j] as int], file) by {
            if j < rest.len() {
                assert(bucket(rs, file)[j] == rest[j]);
                assert(rest[j] < rs.len() - 1 && located_in(rs.drop_last()[rest[j] as int], file));
                assert(rs.drop_last()[rest[j] as int] == rs[rest[j] as int]);
            } else {
                assert(located_in(rs.last(), file));
                assert(bucket(rs, file) == rest.push((rs.len() - 1) as usize));
                assert(rs[rs.len() - 1] == rs.last());
            }
        }
    }
}

proof fn lemma_add_keys_contains(keys: Seq<Seq<char>>, ks: Seq<Seq<char>>, x: Seq<char>)
    ensures
        keys.contains(x) || ks.contains(x) <==> add_keys(keys, ks).contains(x),
    decreases ks.len(),
{
    if ks.len() > 0 {
        lemma_add_keys_contains(keys, ks.drop_last(), x);
        let prev = add_keys(keys, ks.drop_last());
        if ks.contains(x) && !ks.drop_last().contains(x) {
            let m = choose|m: int| 0 <= m < ks.len() && ks[m] == x;
            if m < ks.len() - 1 {
                assert(ks.drop_last()[m] == x);
            }
        }
        if ks.drop_last().contains(x) {
            let m = choose|m: int| 0 <= m < ks.drop_last().len() && ks.drop_last()[m] == x;
            assert(ks[m] == x);
        }
        if !prev.contains(ks.last()) {
            assert(prev.push(ks.last())[prev.len() as int] == ks.last());
            if prev.contains(x) {
                let m = choose|m: int| 0 <= m < prev.len() && prev[m] == x;
                assert(prev.push(ks.last())[m] == x);
            }
            if prev.push(ks.last()).contains(x) && x != ks.last() {
                let m = choose|m: int| 0 <= m < prev.len() + 1 && prev.push(ks.last())[m] == x;
                assert(prev[m] == x);
            }
        }
    }
}

proof fn lemma_add_keys_unique(keys: Seq<Seq<char>>, ks: Seq<Seq<char>>)
    requires
        keys.no_duplicates(),
    ensures
        add_keys(keys, ks).no_duplicates(),
    decreases ks.len(),
{
    if ks.len() > 0 {
        lemma_add_keys_unique(keys, ks.drop_last());
        let prev = add_keys(keys, ks.drop_last());
        if !prev.contains(ks.last()) {
            let next = prev.push(ks.last());
            assert forall|a: int, b: int| 0 <= a < next.len() && 0 <= b < next.len() && a != b implies next[a]
                != next[b] by {
                if a < prev.len() && b < prev.len() {
                } else if a == prev.len() {
                    assert(prev[b] == next[b]);
                } else {
                    assert(prev[a] == next[a]);
                }
            }
        }
    }
}

proof fn lemma_index_keys_unique(rs: Seq<RemarkView>)
    ensures
        index_keys(rs).no_duplicates(),
    decreases rs.len(),
{
    if rs.len() > 0 {
        lemma_index_keys_unique(rs.drop_last());
        lemma_add_keys_unique(index_keys(rs.drop_last()), referenced_files(rs.last()));
    }
}

/// A file in which a record is located is a key of the index.
proof fn lemma_keys_complete(rs: Seq<RemarkView>)
    ensures
        forall|j: int, f: Seq<char>| 0 <= j < rs.len() && #[trigger] located_in(rs[j], f) ==> index_keys(
            rs,
        ).contains(f),
        index_keys(rs).no_duplicates(),
    decreases rs.len(),
{
    lemma_index_keys_unique(rs);
    if rs.len() > 0 {
        let pre = rs.drop_last();
        lemma_keys_complete(pre);
        assert forall|j: int, f: Seq<char>| 0 <= j < rs.len() && #[trigger] located_in(rs[j], f) implies index_keys(
            rs,
        ).contains(f) by {
            let refs = referenced_files(rs.last());
            if j < rs.len() - 1 {
                assert(pre[j] == rs[j]);
                lemma_add_keys_contains(index_keys(pre), refs, f);
            } else {
                assert(refs[0] == f);
                lemma_add_keys_contains(index_keys(pre), refs, f);
            }
        }
    }
}

/// A file that is no key of the index has no records.
proof fn lemma_unreferenced_bucket_empty(rs: Seq<RemarkView>, f: Seq<char>)
    requires
        !index_keys(rs).contains(f),
    ensures
        bucket(rs, f) == Seq::<RemarkId>::empty(),
    decreases rs.len(),
{
    if rs.len() > 0 {
        lemma_keys_complete(rs);
        let pre = rs.drop_last();
        lemma_add_keys_contains(index_keys(pre), referenced_files(rs.last()), f);
        assert(rs[rs.len() - 1] == rs.last());
        lemma_unreferenced_bucket_empty(pre, f);
    }
}

proof fn lemma_annotated_files_contains(parts: Seq<MessagePartView>, j: int)
    requires
        0 <= j < parts.len(),
        parts[j] is Annotated,
    ensures
        annotated_files(parts).contains(parts[j]->location.file),
    decreases parts.len(),
{
    let rest = annotated_files(parts.drop_last());
    if j == parts.len() - 1 {
        assert(annotated_files(parts)[rest.len() as int] == parts[j]->location.file);
    } else {
        assert(parts.drop_last()[j] == parts[j]);
        lemma_annotated_files_contains(parts.drop_last(), j);
        let m = choose|m: int| 0 <= m < rest.len() && rest[m] == parts[j]->location.file;
        assert(annotated_files(parts)[m] == rest[m]);
    }
}

proof fn lemma_index_keys_grow(rs: Seq<RemarkView>, n: int, x: Seq<char>)
    requires
        0 <= n <= rs.len(),
        index_keys(rs.subrange(0, n)).contains(x),
    ensures
        index_keys(rs).contains(x),
    decreases rs.len() - n,
{
    if n < rs.len() {
        let next = rs.subrange(0, n + 1);
        assert(next.drop_last() =~= rs.subrange(0, n));
        lemma_add_keys_contains(index_keys(rs.subrange(0, n)), referenced_files(next.last()), x);
        lemma_index_keys_grow(rs, n + 1, x);
    } else {
        assert(rs.subrange(0, n) =~= rs);
    }
}

/// Every file that a record's message refers to is a key of the index,
/// with or without records of its own.
pub proof fn lemma_annotated_files_indexed(rs: Seq<RemarkView>, i: int, j: int)
    requires
        0 <= i < rs.len(),
        0 <= j < rs[i].message.len(),
        rs[i].message[j] is Annotated,
    ensures
        index_keys(rs).contains(rs[i].message[j]->location.file),
        index_of(rs).map_values(|e: (Seq<char>, Seq<RemarkId>)| e.0).contains(
            rs[i].message[j]->location.file,
        ),
{
    let f = rs[i].message[j]->location.file;
    let r = rs[i];
    lemma_annotated_files_contains(r.message, j);
    let refs = referenced_files(r);
    assert(refs.contains(f)) by {
        let m = choose|m: int| 0 <= m < annotated_files(r.message).len() && annotated_files(r.message)[m] == f;
        match r.function.location {
            Some(l) => assert(refs[m + 1] == f),
            None => assert(refs[m] == f),
        }
    }
    let next = rs.subrange(0, i + 1);
    assert(next.drop_last() =~= rs.subrange(0, i));
    assert(next.last() == r);
    lemma_add_keys_contains(index_keys(rs.subrange(0, i)), refs, f);
    lemma_index_keys_grow(rs, i + 1, f);
    let keys = index_of(rs).map_values(|e: (Seq<char>, Seq<RemarkId>)| e.0);
    assert(keys =~= index_keys(rs));
}

} // verus!
