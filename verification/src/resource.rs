use vstd::prelude::*;

use crate::error::{DecodeFailure, DecodingError};
use crate::textfmt::{hex8, lemma_hex8_round_trip, spec_parse_hex_u32, u32_to_hex8};

verus! {

broadcast use vstd::std_specs::vec::axiom_vec_index_decreases;

use vstd::string::StringExecFns;

/// The mathematical model of a resource tree: the same shape as `Resource`,
/// with byte vectors abstracted to sequences.
pub struct ResourceModel {
    pub identifier: u32,
    pub format: Option<Seq<u8>>,
    pub extension: Option<Seq<u8>>,
    pub data: Seq<u8>,
    pub hidden: bool,
    pub subresources: Seq<ResourceModel>,
}

/// The view of an optional byte vector.
pub open spec fn opt_bytes_view(o: Option<Vec<u8>>) -> Option<Seq<u8>> {
    match o {
        Some(v) => Some(v@),
        None => None,
    }
}

/// One node of the resource tree. A leaf holds content bytes and no children;
/// a decoded container holds its serialized manifest and the decoded children.
#[derive(Debug)]
pub struct Resource {
    /// 32-bit identity, unique among siblings, stable across round trips.
    pub identifier: u32,
    /// Structural format family tag, used to select the correct encoder.
    pub format: Option<Vec<u8>>,
    /// Detected leaf content type; also composes the on-disk filename.
    pub extension: Option<Vec<u8>>,
    /// Content bytes for a leaf; the serialized manifest for a container.
    pub data: Vec<u8>,
    /// Excluded from default materialization when set.
    pub hidden: bool,
    /// Ordered, exclusively owned children.
    pub subresources: Vec<Resource>,
}

impl Resource {
    /// The models of `v[i..]`, in order.
    pub open spec fn models_from(v: Vec<Resource>, i: int) -> Seq<ResourceModel>
        recommends
            0 <= i <= v@.len(),
        decreases v, v@.len() - i + 1,
    {
        if i < 0 || i >= v@.len() {
            Seq::empty()
        } else {
            seq![v@[i].model()] + Self::models_from(v, i + 1)
        }
    }

    /// The recursive model of this node and its whole subtree.
    pub open spec fn model(&self) -> ResourceModel
        decreases self, 0int,
    {
        ResourceModel {
            identifier: self.identifier,
            format: opt_bytes_view(self.format),
            extension: opt_bytes_view(self.extension),
            data: self.data@,
            hidden: self.hidden,
            subresources: Self::models_from(self.subresources, 0),
        }
    }
}

impl View for Resource {
    type V = ResourceModel;

    open spec fn view(&self) -> ResourceModel {
        self.model()
    }
}

/// The convenient pointwise description of `models_from`.
pub broadcast proof fn lemma_models_from(v: Vec<Resource>, i: int)
    requires
        0 <= i <= v@.len(),
    ensures
        (#[trigger] Resource::models_from(v, i)).len() == v@.len() - i,
        forall|j: int|
            0 <= j < v@.len() - i ==> #[trigger] Resource::models_from(v, i)[j] == v@[i + j].model(),
    decreases v@.len() - i,
{
    if i < v@.len() {
        lemma_models_from(v, i + 1);
    }
}

impl Default for Resource {
    /// A fresh leaf: identifier zero, no tags, no data, visible, no children.
    fn default() -> (r: Self)
        ensures
            r@.identifier == 0,
            r@.format is None,
            r@.extension is None,
            r@.data == Seq::<u8>::empty(),
            r@.hidden == false,
            r@.subresources == Seq::<ResourceModel>::empty(),
    {
        let r = Resource {
            identifier: 0,
            format: None,
            extension: None,
            data: Vec::new(),
            hidden: false,
            subresources: Vec::new(),
        };
        proof {
            assert(r@.data =~= Seq::<u8>::empty());
            assert(r@.subresources =~= Seq::<ResourceModel>::empty());
        }
        r
    }
}

/// The on-disk name of a resource: eight hex digits, then the optional
/// format tag, then the optional extension, dot-separated.
pub open spec fn spec_filename(m: ResourceModel) -> Seq<u8> {
    let base = hex8(m.identifier);
    let with_format = match m.format {
        Some(f) => base + seq![0x2eu8] + f,
        None => base,
    };
    match m.extension {
        Some(e) => with_format + seq![0x2eu8] + e,
        None => with_format,
    }
}

/// The name of the directory holding a resource's extracted children.
pub open spec fn spec_dirname(m: ResourceModel) -> Seq<u8> {
    spec_filename(m) + seq![0x2eu8, 0x64u8]
}

/// Split `s` on `.` bytes, keeping empty segments; never empty.
pub open spec fn split_dots(s: Seq<u8>) -> Seq<Seq<u8>>
    decreases s.len(),
{
    if s.len() == 0 {
        seq![Seq::<u8>::empty()]
    } else if s[0] == 0x2e {
        seq![Seq::<u8>::empty()] + split_dots(s.drop_first())
    } else {
        let r = split_dots(s.drop_first());
        r.update(0, seq![s[0]] + r[0])
    }
}

pub proof fn lemma_split_dots_len(s: Seq<u8>)
    ensures
        split_dots(s).len() >= 1,
    decreases s.len(),
{
    if s.len() > 0 {
        lemma_split_dots_len(s.drop_first());
    }
}

/// `t` holds no `.` byte.
pub open spec fn dot_free(t: Seq<u8>) -> bool {
    forall|i: int| 0 <= i < t.len() ==> t[i] != 0x2e
}

/// Splitting a dot-free string yields that one segment.
pub proof fn lemma_split_dots_single(a: Seq<u8>)
    requires
        dot_free(a),
    ensures
        split_dots(a) == seq![a],
    decreases a.len(),
{
    if a.len() == 0 {
        assert(split_dots(a) =~~= seq![a]);
    } else {
        lemma_split_dots_single(a.drop_first());
        let r = split_dots(a.drop_first());
        assert(seq![a[0]] + a.drop_first() =~= a);
        assert(r.update(0, seq![a[0]] + r[0]) =~~= seq![a]);
    }
}

/// Splitting at the first dot of `a + "." + b` peels off `a`.
pub proof fn lemma_split_dots_concat(a: Seq<u8>, b: Seq<u8>)
    requires
        dot_free(a),
    ensures
        split_dots(a + seq![0x2eu8] + b) == seq![a] + split_dots(b),
    decreases a.len(),
{
    let s = a + seq![0x2eu8] + b;
    if a.len() == 0 {
        assert(s.drop_first() =~= b);
        assert(split_dots(s) == seq![Seq::<u8>::empty()] + split_dots(b));
        assert(seq![Seq::<u8>::empty()] + split_dots(b) =~~= seq![a] + split_dots(b));
    } else {
        assert(s[0] == a[0]);
        assert(s[0] != 0x2e);
        assert(s.drop_first() =~= a.drop_first() + seq![0x2eu8] + b);
        lemma_split_dots_concat(a.drop_first(), b);
        let r = split_dots(s.drop_first());
        lemma_split_dots_len(b);
        assert(r[0] == a.drop_first());
        assert(seq![s[0]] + a.drop_first() =~= a);
        assert(r.update(0, seq![s[0]] + r[0]) =~~= seq![a] + split_dots(b));
    }
}

/// The views of the segments in `parts`.
pub open spec fn parts_view(parts: Vec<Vec<u8>>) -> Seq<Seq<u8>> {
    Seq::new(parts@.len(), |i: int| parts@[i]@)
}

/// Split a byte slice on `.`.
fn split_dots_exec(s: &[u8]) -> (parts: Vec<Vec<u8>>)
    ensures
        parts_view(parts) == split_dots(s@),
        parts@.len() >= 1,
    decreases s@.len(),
{
    if s.len() == 0 {
        let mut parts: Vec<Vec<u8>> = Vec::new();
        parts.push(Vec::new());
        proof {
            assert(parts_view(parts) =~~= split_dots(s@));
        }
        parts
    } else if s[0] == 0x2e {
        let rest = vstd::slice::slice_subrange(s, 1, s.len());
        let mut parts = split_dots_exec(rest);
        parts.insert(0, Vec::new());
        proof {
            assert(rest@ =~= s@.drop_first());
            assert(parts_view(parts) =~~= split_dots(s@));
        }
        parts
    } else {
        let rest = vstd::slice::slice_subrange(s, 1, s.len());
        let mut parts = split_dots_exec(rest);
        let first = parts.remove(0);
        let mut head: Vec<u8> = Vec::new();
        head.push(s[0]);
        let mut tail = first;
        head.append(&mut tail);
        parts.insert(0, head);
        proof {
            assert(rest@ =~= s@.drop_first());
            let r = split_dots(s@.drop_first());
            assert(parts_view(parts) =~~= r.update(0, seq![s@[0]] + r[0]));
        }
        parts
    }
}

/// Filename grammar: `ID`, `ID.EXT` or `ID.TAG.EXT`, with `ID` lowercase hex.
pub open spec fn spec_parse_filename(s: Seq<u8>) -> Option<
    (u32, Option<Seq<u8>>, Option<Seq<u8>>),
> {
    let parts = split_dots(s);
    if parts.len() == 1 {
        match spec_parse_hex_u32(parts[0]) {
            Some(id) => Some((id, None, None)),
            None => None,
        }
    } else if parts.len() == 2 {
        match spec_parse_hex_u32(parts[0]) {
            Some(id) => Some((id, None, Some(parts[1]))),
            None => None,
        }
    } else if parts.len() == 3 {
        match spec_parse_hex_u32(parts[0]) {
            Some(id) => Some((id, Some(parts[1]), Some(parts[2]))),
            None => None,
        }
    } else {
        None
    }
}

/// Tags that compose into a filename that parses back: no dots inside a tag,
/// and a format tag never stands without an extension.
pub open spec fn tags_wf(m: ResourceModel) -> bool {
    &&& match m.format {
        Some(f) => dot_free(f) && m.extension is Some,
        None => true,
    }
    &&& match m.extension {
        Some(e) => dot_free(e),
        None => true,
    }
}

/// A resource's own filename parses back to its identifier and tags.
pub proof fn lemma_filename_round_trip(m: ResourceModel)
    requires
        tags_wf(m),
    ensures
        spec_parse_filename(spec_filename(m)) == Some((m.identifier, m.format, m.extension)),
{
    let base = hex8(m.identifier);
    lemma_hex8_round_trip(m.identifier);
    assert(dot_free(base)) by {
        assert forall|i: int| 0 <= i < base.len() implies base[i] != 0x2e by {
            assert(crate::textfmt::is_lower_hex_digit(base[i]));
        }
    }
    match m.format {
        Some(f) => {
            let e = m.extension->0;
            let name = spec_filename(m);
            assert(name =~= base + seq![0x2eu8] + (f + seq![0x2eu8] + e));
            lemma_split_dots_concat(base, f + seq![0x2eu8] + e);
            lemma_split_dots_concat(f, e);
            lemma_split_dots_single(e);
            assert(split_dots(name) == seq![base] + (seq![f] + seq![e]));
            assert(split_dots(name).len() == 3);
            assert(split_dots(name)[0] == base);
            assert(split_dots(name)[1] == f);
            assert(split_dots(name)[2] == e);
        },
        None => {
            match m.extension {
                Some(e) => {
                    let name = spec_filename(m);
                    assert(name =~= base + seq![0x2eu8] + e);
                    lemma_split_dots_concat(base, e);
                    lemma_split_dots_single(e);
                    assert(split_dots(name) == seq![base] + seq![e]);
                    assert(split_dots(name).len() == 2);
                    assert(split_dots(name)[0] == base);
                    assert(split_dots(name)[1] == e);
                },
                None => {
                    lemma_split_dots_single(base);
                    assert(split_dots(spec_filename(m))[0] == base);
                },
            }
        },
    }
}

/// Does the optional tag hold exactly these bytes?
pub fn opt_tag_is(t: &Option<Vec<u8>>, lit: &[u8]) -> (r: bool)
    ensures
        r == (opt_bytes_view(*t) == Some(lit@)),
{
    match t {
        Some(v) => crate::textfmt::eq_bytes(v.as_slice(), lit),
        None => false,
    }
}

/// What the digest of `Resource::hash` is: sha2's SHA-256 of the bytes.
pub uninterp spec fn sha256_of(s: Seq<u8>) -> Seq<u8>;

/// Relies on sha2's `Sha256`: a 32-byte digest that is a function of the
/// input bytes alone.
#[verifier::external_body]
fn sha256_digest(data: &[u8]) -> (r: Vec<u8>)
    ensures
        r@ == sha256_of(data@),
        r@.len() == 32,
{
    let digest = <sha2::Sha256 as sha2::Digest>::digest(data);
    digest.to_vec()
}

impl Resource {
    /// Compose the on-disk filename from identifier and tags.
    pub fn get_filename(&self) -> (r: Vec<u8>)
        ensures
            r@ == spec_filename(self@),
    {
        let mut filename = u32_to_hex8(self.identifier);
        if let Some(tag) = &self.format {
            filename.push(0x2e);
            crate::textfmt::push_bytes(&mut filename, tag.as_slice());
            proof {
                assert(filename@ =~= hex8(self.identifier) + seq![0x2eu8] + tag@);
            }
        }
        if let Some(extension) = &self.extension {
            let ghost before = filename@;
            filename.push(0x2e);
            crate::textfmt::push_bytes(&mut filename, extension.as_slice());
            proof {
                assert(filename@ =~= before + seq![0x2eu8] + extension@);
            }
        }
        filename
    }

    /// Compose the name of the directory holding this resource's children.
    pub fn get_dirname(&self) -> (r: Vec<u8>)
        ensures
            r@ == spec_dirname(self@),
    {
        let mut name = self.get_filename();
        name.push(0x2e);
        name.push(0x64);
        proof {
            assert(name@ =~= spec_dirname(self@));
        }
        name
    }

    /// Parse identifier and tags out of an on-disk filename.
    /// Any shape other than `ID`, `ID.EXT` or `ID.TAG.EXT` is a parse error,
    /// and the resource is left untouched.
    pub fn parse_filename(&mut self, filename: &[u8]) -> (r: Result<(), DecodingError>)
        ensures
            match spec_parse_filename(filename@) {
                Some(t) => r is Ok && final(self)@ == (ResourceModel {
                    identifier: t.0,
                    format: if t.1 is Some {
                        t.1
                    } else {
                        old(self)@.format
                    },
                    extension: if t.2 is Some {
                        t.2
                    } else {
                        old(self)@.extension
                    },
                    ..old(self)@
                }),
                None => r is Err && (r matches Err(e) && e.kind() == DecodeFailure::Parse)
                    && *final(self) == *old(self),
            },
    {
        let mut parts = split_dots_exec(filename);
        let n = parts.len();
        proof {
            assert(parts_view(parts).len() == n);
        }
        if n == 1 {
            match crate::textfmt::parse_hex_u32(parts[0].as_slice()) {
                Some(id) => {
                    self.identifier = id;
                    Ok(())
                },
                None => Err(
                    DecodingError::ParsingError(
                        String::from_str("filename does not contain an identifier"),
                    ),
                ),
            }
        } else if n == 2 {
            match crate::textfmt::parse_hex_u32(parts[0].as_slice()) {
                Some(id) => {
                    let ext = match parts.pop() {
                        Some(v) => v,
                        None => {
                            proof {
                                assert(false);
                            }
                            Vec::new()
                        },
                    };
                    self.identifier = id;
                    self.extension = Some(ext);
                    Ok(())
                },
                None => Err(
                    DecodingError::ParsingError(
                        String::from_str("filename does not contain an identifier"),
                    ),
                ),
            }
        } else if n == 3 {
            match crate::textfmt::parse_hex_u32(parts[0].as_slice()) {
                Some(id) => {
                    let ext = match parts.pop() {
                        Some(v) => v,
                        None => {
                            proof {
                                assert(false);
                            }
                            Vec::new()
                        },
                    };
                    let tag = match parts.pop() {
                        Some(v) => v,
                        None => {
                            proof {
                                assert(false);
                            }
                            Vec::new()
                        },
                    };
                    self.identifier = id;
                    self.format = Some(tag);
                    self.extension = Some(ext);
                    Ok(())
                },
                None => Err(
                    DecodingError::ParsingError(
                        String::from_str("filename does not contain an identifier"),
                    ),
                ),
            }
        } else {
            Err(DecodingError::ParsingError(String::from_str("wrong filename")))
        }
    }

    /// The content digest used by reporting features to detect changed
    /// payloads; not part of the round-trip contract.
    pub fn hash(&self) -> (r: Vec<u8>)
        ensures
            r@ == sha256_of(self@.data),
            r@.len() == 32,
    {
        sha256_digest(self.data.as_slice())
    }
}

} // verus!
