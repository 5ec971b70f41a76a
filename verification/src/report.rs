use vstd::prelude::*;

use crate::codecs::find_child;
use crate::resource::{opt_bytes_view, spec_filename, Resource, ResourceModel};

verus! {

/// One row of the archive statistics: a tag pair and how many direct
/// children of the decoded archive carry it.
pub struct StatEntry {
    pub extension: Option<Vec<u8>>,
    pub format: Option<Vec<u8>>,
    pub count: u64,
}

pub struct StatEntryModel {
    pub extension: Option<Seq<u8>>,
    pub format: Option<Seq<u8>>,
    pub count: u64,
}

impl View for StatEntry {
    type V = StatEntryModel;

    open spec fn view(&self) -> StatEntryModel {
        StatEntryModel {
            extension: opt_bytes_view(self.extension),
            format: opt_bytes_view(self.format),
            count: self.count,
        }
    }
}

/// How many of the children carry exactly this tag pair.
pub open spec fn tag_count(
    children: Seq<ResourceModel>,
    ext: Option<Seq<u8>>,
    fmt: Option<Seq<u8>>,
    k: int,
) -> nat
    decreases children.len() - k,
{
    if k < 0 || k >= children.len() {
        0
    } else {
        (if children[k].extension == ext && children[k].format == fmt {
            1nat
        } else {
            0nat
        }) + tag_count(children, ext, fmt, k + 1)
    }
}

/// Appending one child bumps exactly its own tag pair.
proof fn lemma_tag_count_snoc(
    s: Seq<ResourceModel>,
    x: ResourceModel,
    ext: Option<Seq<u8>>,
    fmt: Option<Seq<u8>>,
    k: int,
)
    requires
        0 <= k <= s.len(),
    ensures
        tag_count(s.push(x), ext, fmt, k) == tag_count(s, ext, fmt, k) + (
        if x.extension == ext && x.format == fmt {
            1nat
        } else {
            0nat
        }),
    decreases s.len() - k,
{
    assert(s.push(x).len() == s.len() + 1);
    if k < s.len() {
        assert(s.push(x)[k] == s[k]);
        lemma_tag_count_snoc(s, x, ext, fmt, k + 1);
    } else {
        assert(s.push(x)[k] == x);
        assert(tag_count(s.push(x), ext, fmt, k + 1) == 0);
        assert(tag_count(s, ext, fmt, k) == 0);
    }
}

/// Do the optional tags hold the same bytes?
fn opt_tag_eq(a: &Option<Vec<u8>>, b: &Option<Vec<u8>>) -> (r: bool)
    ensures
        r == (opt_bytes_view(*a) == opt_bytes_view(*b)),
{
    match (a, b) {
        (Some(x), Some(y)) => crate::textfmt::eq_bytes(x.as_slice(), y.as_slice()),
        (None, None) => true,
        _ => false,
    }
}

/// Copy an optional tag.
fn opt_tag_copy(a: &Option<Vec<u8>>) -> (r: Option<Vec<u8>>)
    ensures
        opt_bytes_view(r) == opt_bytes_view(*a),
{
    match a {
        Some(x) => Some(vstd::slice::slice_to_vec(x.as_slice())),
        None => None,
    }
}

/// Group the direct children of a decoded archive by their tag pair, in
/// first-appearance order, and count each group. Every child is accounted
/// for, every row's count is exact, and no tag pair appears twice.
#[verifier::rlimit(100)]
#[verifier::spinoff_prover]
pub fn statistics(archive: &Resource) -> (r: Vec<StatEntry>)
    ensures
        forall|i: int|
            0 <= i < r@.len() ==> (#[trigger] r@[i]@).count == tag_count(
                archive@.subresources,
                r@[i]@.extension,
                r@[i]@.format,
                0,
            ),
        forall|i: int| 0 <= i < r@.len() ==> (#[trigger] r@[i]@).count >= 1,
        forall|i: int, j: int|
            0 <= i < j < r@.len() ==> !((#[trigger] r@[i]@).extension == (#[trigger] r@[j]@).extension
                && r@[i]@.format == r@[j]@.format),
        forall|c: int|
            0 <= c < archive@.subresources.len() ==> exists|i: int|
                0 <= i < r@.len() && (#[trigger] r@[i]@).extension == (
                #[trigger] archive@.subresources[c]).extension && r@[i]@.format
                    == archive@.subresources[c].format,
{
    proof {
        crate::resource::lemma_models_from(archive.subresources, 0);
    }
    let ghost cms = archive@.subresources;
    let mut rows: Vec<StatEntry> = Vec::new();
    let mut c: usize = 0;
    proof {
        assert(cms.subrange(0, 0) =~= Seq::<ResourceModel>::empty());
    }
    while c < archive.subresources.len()
        invariant
            0 <= c <= archive.subresources@.len(),
            cms == archive@.subresources,
            cms.len() == archive.subresources@.len(),
            forall|j: int| 0 <= j < cms.len() ==> #[trigger] cms[j] == archive.subresources@[j].model(),
            forall|i: int|
                0 <= i < rows@.len() ==> (#[trigger] rows@[i]@).count == tag_count(
                    cms.subrange(0, c as int),
                    rows@[i]@.extension,
                    rows@[i]@.format,
                    0,
                ),
            forall|i: int|
                0 <= i < rows@.len() ==> 1 <= (#[trigger] rows@[i]@).count <= c,
            forall|i: int, j: int|
                0 <= i < j < rows@.len() ==> !((#[trigger] rows@[i]@).extension == (
                #[trigger] rows@[j]@).extension && rows@[i]@.format == rows@[j]@.format),
            forall|c2: int|
                0 <= c2 < c ==> exists|i: int|
                    0 <= i < rows@.len() && (#[trigger] rows@[i]@).extension == (
                    #[trigger] cms[c2]).extension && rows@[i]@.format == cms[c2].format,
        decreases archive.subresources@.len() - c,
    {
        let ghost prev = cms.subrange(0, c as int);
        proof {
            assert(cms.subrange(0, c as int + 1) =~= prev.push(cms[c as int]));
        }
        let child = &archive.subresources[c];
        let mut found: Option<usize> = None;
        let mut i: usize = 0;
        while i < rows.len()
            invariant
                0 <= i <= rows@.len(),
                cms == archive@.subresources,
                c < cms.len(),
                cms[c as int] == archive.subresources@[c as int].model(),
                child == archive.subresources@[c as int],
                match found {
                    Some(fi) => fi < i <= rows@.len() && rows@[fi as int]@.extension == cms[c as int].extension
                        && rows@[fi as int]@.format == cms[c as int].format,
                    None => forall|j: int|
                        0 <= j < i ==> !((#[trigger] rows@[j]@).extension == cms[c as int].extension
                            && rows@[j]@.format == cms[c as int].format),
                },
            decreases rows@.len() - i,
        {
            if found.is_none() && opt_tag_eq(&rows[i].extension, &child.extension) && opt_tag_eq(
                &rows[i].format,
                &child.format,
            ) {
                found = Some(i);
            }
            i += 1;
        }
        let ghost rows0 = rows@;
        match found {
            Some(fi) => {
                let mut row = rows.remove(fi);
                row.count = row.count + 1;
                rows.insert(fi, row);
                proof {
                    assert(rows@ =~= rows0.update(fi as int, rows@[fi as int]));
                    assert forall|i2: int| 0 <= i2 < rows@.len() implies (
                    #[trigger] rows@[i2]@).count == tag_count(
                        cms.subrange(0, c as int + 1),
                        rows@[i2]@.extension,
                        rows@[i2]@.format,
                        0,
                    ) by {
                        lemma_tag_count_snoc(
                            prev,
                            cms[c as int],
                            rows@[i2]@.extension,
                            rows@[i2]@.format,
                            0,
                        );
                        if i2 != fi as int {
                            assert(rows@[i2] == rows0[i2]);
                            assert(!(rows@[i2]@.extension == cms[c as int].extension
                                && rows@[i2]@.format == cms[c as int].format));
                        }
                    }
                    assert(rows@[fi as int]@.extension == cms[c as int].extension && rows@[
                        fi as int]@.format == cms[c as int].format);
                    assert forall|c2: int| 0 <= c2 < c as int + 1 implies exists|i2: int|
                        0 <= i2 < rows@.len() && (#[trigger] rows@[i2]@).extension == (
                        #[trigger] cms[c2]).extension && rows@[i2]@.format == cms[c2].format by {
                        if c2 < c as int {
                            let i2 = choose|i2: int|
                                0 <= i2 < rows0.len() && (#[trigger] rows0[i2]@).extension == (
                                #[trigger] cms[c2]).extension && rows0[i2]@.format
                                    == cms[c2].format;
                            if i2 == fi as int {
                                assert(rows@[i2]@.extension == rows0[i2]@.extension && rows@[i2]@.format
                                    == rows0[i2]@.format);
                            } else {
                                assert(rows@[i2] == rows0[i2]);
                            }
                        }
                    }
                }
            },
            None => {
                let row = StatEntry {
                    extension: opt_tag_copy(&child.extension),
                    format: opt_tag_copy(&child.format),
                    count: 1,
                };
                rows.push(row);
                proof {
                    assert forall|i2: int| 0 <= i2 < rows@.len() implies (
                    #[trigger] rows@[i2]@).count == tag_count(
                        cms.subrange(0, c as int + 1),
                        rows@[i2]@.extension,
                        rows@[i2]@.format,
                        0,
                    ) by {
                        lemma_tag_count_snoc(
                            prev,
                            cms[c as int],
                            rows@[i2]@.extension,
                            rows@[i2]@.format,
                            0,
                        );
                        if i2 < rows0.len() {
                            assert(rows@[i2] == rows0[i2]);
                            assert(!(rows@[i2]@.extension == cms[c as int].extension
                                && rows@[i2]@.format == cms[c as int].format));
                        } else {
                            assert(tag_count(prev, rows@[i2]@.extension, rows@[i2]@.format, 0)
                                == 0) by {
                                lemma_tag_count_none(
                                    prev,
                                    rows@[i2]@.extension,
                                    rows@[i2]@.format,
                                    0,
                                    cms,
                                    c as int,
                                    rows0,
                                );
                            }
                        }
                    }
                    assert(rows@[rows0.len() as int]@.extension == cms[c as int].extension && rows@[
                        rows0.len() as int]@.format == cms[c as int].format);
                    assert forall|c2: int| 0 <= c2 < c as int + 1 implies exists|i2: int|
                        0 <= i2 < rows@.len() && (#[trigger] rows@[i2]@).extension == (
                        #[trigger] cms[c2]).extension && rows@[i2]@.format == cms[c2].format by {
                        if c2 < c as int {
                            let i2 = choose|i2: int|
                                0 <= i2 < rows0.len() && (#[trigger] rows0[i2]@).extension == (
                                #[trigger] cms[c2]).extension && rows0[i2]@.format
                                    == cms[c2].format;
                            assert(rows@[i2] == rows0[i2]);
                        }
                    }
                }
            },
        }
        c += 1;
    }
    proof {
        assert(cms.subrange(0, cms.len() as int) =~= cms);
    }
    rows
}

/// A tag pair absent from every earlier row was never seen among the first
/// children, so its count so far is zero.
proof fn lemma_tag_count_none(
    prev: Seq<ResourceModel>,
    ext: Option<Seq<u8>>,
    fmt: Option<Seq<u8>>,
    k: int,
    cms: Seq<ResourceModel>,
    c: int,
    rows0: Seq<StatEntry>,
)
    requires
        0 <= k <= prev.len(),
        prev == cms.subrange(0, c),
        0 <= c <= cms.len(),
        forall|c2: int|
            0 <= c2 < c ==> exists|i: int|
                0 <= i < rows0.len() && (#[trigger] rows0[i]@).extension == (
                #[trigger] cms[c2]).extension && rows0[i]@.format == cms[c2].format,
        forall|j: int|
            0 <= j < rows0.len() ==> !((#[trigger] rows0[j]@).extension == ext && rows0[j]@.format
                == fmt),
    ensures
        tag_count(prev, ext, fmt, k) == 0,
    decreases prev.len() - k,
{
    if k < prev.len() {
        assert(prev[k] == cms[k]);
        if cms[k].extension == ext && cms[k].format == fmt {
            let i = choose|i: int|
                0 <= i < rows0.len() && (#[trigger] rows0[i]@).extension == cms[k].extension
                    && rows0[i]@.format == cms[k].format;
            assert(false);
        }
        lemma_tag_count_none(prev, ext, fmt, k + 1, cms, c, rows0);
    }
}

/// The filenames of children of `a` whose identifier has no match in `b`,
/// in order.
pub open spec fn only_in(a: Seq<ResourceModel>, b: Seq<ResourceModel>, k: int) -> Seq<Seq<u8>>
    decreases a.len() - k,
{
    if k < 0 || k >= a.len() {
        Seq::empty()
    } else if find_child(b, a[k].identifier, 0) is None {
        seq![spec_filename(a[k])] + only_in(a, b, k + 1)
    } else {
        only_in(a, b, k + 1)
    }
}

/// The filenames of children of `b` that are present in `a` by identifier
/// but whose payload digest differs, in order.
pub open spec fn changed_in(a: Seq<ResourceModel>, b: Seq<ResourceModel>, k: int) -> Seq<Seq<u8>>
    decreases b.len() - k,
{
    if k < 0 || k >= b.len() {
        Seq::empty()
    } else {
        match find_child(a, b[k].identifier, 0) {
            Some(ci) => {
                if crate::resource::sha256_of(a[ci].data) != crate::resource::sha256_of(
                    b[k].data,
                ) {
                    seq![spec_filename(b[k])] + changed_in(a, b, k + 1)
                } else {
                    changed_in(a, b, k + 1)
                }
            },
            None => changed_in(a, b, k + 1),
        }
    }
}

/// What comparing two decoded archives reports: children present in only one
/// of the two, and children present in both whose payload digests differ.
pub struct DiffReport {
    pub only_first: Vec<Vec<u8>>,
    pub only_second: Vec<Vec<u8>>,
    pub changed: Vec<Vec<u8>>,
}

/// Collect one side's children that the other side lacks.
fn diff_only(a: &Resource, b: &Resource) -> (r: Vec<Vec<u8>>)
    ensures
        crate::resource::parts_view(r) == only_in(a@.subresources, b@.subresources, 0),
{
    proof {
        crate::resource::lemma_models_from(a.subresources, 0);
    }
    let ghost am = a@.subresources;
    let ghost bm = b@.subresources;
    let mut out: Vec<Vec<u8>> = Vec::new();
    let mut k: usize = 0;
    proof {
        assert(crate::resource::parts_view(out) =~= Seq::<Seq<u8>>::empty());
        assert(Seq::<Seq<u8>>::empty() + only_in(am, bm, 0) =~= only_in(am, bm, 0));
    }
    while k < a.subresources.len()
        invariant
            0 <= k <= a.subresources@.len(),
            am == a@.subresources,
            bm == b@.subresources,
            am.len() == a.subresources@.len(),
            forall|j: int| 0 <= j < am.len() ==> #[trigger] am[j] == a.subresources@[j].model(),
            crate::resource::parts_view(out) + only_in(am, bm, k as int) == only_in(am, bm, 0),
        decreases a.subresources@.len() - k,
    {
        let ghost out0 = crate::resource::parts_view(out);
        match crate::codecs::find_child_exec(&b.subresources, a.subresources[k].identifier) {
            Some(_) => {},
            None => {
                let name = a.subresources[k].get_filename();
                out.push(name);
                proof {
                    assert(crate::resource::parts_view(out) =~~= out0 + seq![
                        spec_filename(am[k as int]),
                    ]);
                    assert(out0 + (seq![spec_filename(am[k as int])] + only_in(
                        am,
                        bm,
                        k as int + 1,
                    )) =~= crate::resource::parts_view(out) + only_in(am, bm, k as int + 1));
                }
            },
        }
        k += 1;
    }
    proof {
        assert(crate::resource::parts_view(out) + Seq::<Seq<u8>>::empty()
            =~= crate::resource::parts_view(out));
    }
    out
}

/// Collect the second side's children whose identifier the first side also
/// carries but whose payload digest differs.
fn diff_changed(a: &Resource, b: &Resource) -> (r: Vec<Vec<u8>>)
    ensures
        crate::resource::parts_view(r) == changed_in(a@.subresources, b@.subresources, 0),
{
    proof {
        crate::resource::lemma_models_from(a.subresources, 0);
        crate::resource::lemma_models_from(b.subresources, 0);
    }
    let ghost am = a@.subresources;
    let ghost bm = b@.subresources;
    let mut out: Vec<Vec<u8>> = Vec::new();
    let mut k: usize = 0;
    proof {
        assert(crate::resource::parts_view(out) =~= Seq::<Seq<u8>>::empty());
        assert(Seq::<Seq<u8>>::empty() + changed_in(am, bm, 0) =~= changed_in(am, bm, 0));
    }
    while k < b.subresources.len()
        invariant
            0 <= k <= b.subresources@.len(),
            am == a@.subresources,
            bm == b@.subresources,
            bm.len() == b.subresources@.len(),
            am.len() == a.subresources@.len(),
            forall|j: int| 0 <= j < bm.len() ==> #[trigger] bm[j] == b.subresources@[j].model(),
            forall|j: int| 0 <= j < am.len() ==> #[trigger] am[j] == a.subresources@[j].model(),
            crate::resource::parts_view(out) + changed_in(am, bm, k as int) == changed_in(
                am,
                bm,
                0,
            ),
        decreases b.subresources@.len() - k,
    {
        let ghost out0 = crate::resource::parts_view(out);
        match crate::codecs::find_child_exec(&a.subresources, b.subresources[k].identifier) {
            Some(ci) => {
                let h1 = a.subresources[ci].hash();
                let h2 = b.subresources[k].hash();
                if !crate::textfmt::eq_bytes(h1.as_slice(), h2.as_slice()) {
                    let name = b.subresources[k].get_filename();
                    out.push(name);
                    proof {
                        assert(crate::resource::parts_view(out) =~~= out0 + seq![
                            spec_filename(bm[k as int]),
                        ]);
                        assert(out0 + (seq![spec_filename(bm[k as int])] + changed_in(
                            am,
                            bm,
                            k as int + 1,
                        )) =~= crate::resource::parts_view(out) + changed_in(am, bm, k as int + 1));
                    }
                }
            },
            None => {},
        }
        k += 1;
    }
    proof {
        assert(crate::resource::parts_view(out) + Seq::<Seq<u8>>::empty()
            =~= crate::resource::parts_view(out));
    }
    out
}

/// Compare the children of two decoded archives by identifier: which stand
/// in only one archive, and which stand in both with changed payloads.
pub fn diff(first: &Resource, second: &Resource) -> (r: DiffReport)
    ensures
        crate::resource::parts_view(r.only_first) == only_in(
            first@.subresources,
            second@.subresources,
            0,
        ),
        crate::resource::parts_view(r.only_second) == only_in(
            second@.subresources,
            first@.subresources,
            0,
        ),
        crate::resource::parts_view(r.changed) == changed_in(
            first@.subresources,
            second@.subresources,
            0,
        ),
{
    DiffReport {
        only_first: diff_only(first, second),
        only_second: diff_only(second, first),
        changed: diff_changed(first, second),
    }
}

} // verus!
