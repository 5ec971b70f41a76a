pub mod ogg_codec;
pub mod old_engine_codec;
pub mod osa_codec;
pub mod raw_codec;
pub mod sword_text_codec;
pub mod ttf_codec;
pub mod txt_codec;
pub mod vt7a_codec;
pub mod webm_codec;
pub mod webp_codec;
pub mod xml_codec;

pub use ogg_codec::OggCodec;
pub use old_engine_codec::OldEngineCodec;
pub use osa_codec::{OsaCodec, ResourceItem};
pub use raw_codec::RawCodec;
pub use sword_text_codec::{SwordTextCodec, TextLine};
pub use ttf_codec::TtfCodec;
pub use txt_codec::TxtCodec;
pub use vt7a_codec::{Vt7aCodec, Vt7aVersion};
pub use webm_codec::WebmCodec;
pub use webp_codec::WebpCodec;
pub use xml_codec::XmlCodec;

use vstd::prelude::*;

use crate::error::{DecodeFailure, DecodingError, EncodeFailure, EncodingError};
use crate::resource::{Resource, ResourceModel};
use crate::store::{FileEntryModel, FileStore};

verus! {

use vstd::string::StringExecFns;

/// The content tag `json`, carried by every decoded container manifest.
pub open spec fn json_tag() -> Seq<u8> {
    seq![0x6au8, 0x73u8, 0x6fu8, 0x6eu8]
}

/// The fixed codec registry, one tag per codec, in registration order.
#[derive(Clone, Copy, Debug)]
pub enum CodecId {
    OldEngine,
    Ogg,
    Osa,
    Raw,
    SwordText,
    Ttf,
    Txt,
    Vt7a,
    Webm,
    Webp,
    Xml,
}

/// The registration order. The catch-all raw codec scores a nonzero value on
/// every input, so it wins whenever no signature matches.
pub open spec fn codec_order() -> Seq<CodecId> {
    seq![
        CodecId::OldEngine,
        CodecId::Ogg,
        CodecId::Osa,
        CodecId::Raw,
        CodecId::SwordText,
        CodecId::Ttf,
        CodecId::Txt,
        CodecId::Vt7a,
        CodecId::Webm,
        CodecId::Webp,
        CodecId::Xml,
    ]
}

pub open spec fn decode_score_of(c: CodecId, m: ResourceModel) -> usize {
    match c {
        CodecId::OldEngine => old_engine_codec::old_engine_decode_score(m),
        CodecId::Ogg => ogg_codec::ogg_decode_score(m),
        CodecId::Osa => osa_codec::osa_decode_score(m),
        CodecId::Raw => raw_codec::raw_decode_score(m),
        CodecId::SwordText => sword_text_codec::sword_decode_score(m),
        CodecId::Ttf => ttf_codec::ttf_decode_score(m),
        CodecId::Txt => txt_codec::txt_decode_score(m),
        CodecId::Vt7a => vt7a_codec::vt7a_decode_score(m),
        CodecId::Webm => webm_codec::webm_decode_score(m),
        CodecId::Webp => webp_codec::webp_decode_score(m),
        CodecId::Xml => xml_codec::xml_decode_score(m),
    }
}

pub open spec fn encode_score_of(c: CodecId, m: ResourceModel) -> usize {
    match c {
        CodecId::OldEngine => old_engine_codec::old_engine_encode_score(m),
        CodecId::Ogg => ogg_codec::ogg_encode_score(m),
        CodecId::Osa => osa_codec::osa_encode_score(m),
        CodecId::Raw => raw_codec::raw_encode_score(m),
        CodecId::SwordText => sword_text_codec::sword_encode_score(m),
        CodecId::Ttf => ttf_codec::ttf_encode_score(m),
        CodecId::Txt => txt_codec::txt_encode_score(m),
        CodecId::Vt7a => vt7a_codec::vt7a_encode_score(m),
        CodecId::Webm => webm_codec::webm_encode_score(m),
        CodecId::Webp => webp_codec::webp_encode_score(m),
        CodecId::Xml => xml_codec::xml_encode_score(m),
    }
}

pub open spec fn decode_scores(m: ResourceModel) -> Seq<usize> {
    Seq::new(codec_order().len(), |i: int| decode_score_of(codec_order()[i], m))
}

pub open spec fn encode_scores(m: ResourceModel) -> Seq<usize> {
    Seq::new(codec_order().len(), |i: int| encode_score_of(codec_order()[i], m))
}

/// `i` is the first index attaining the strictly positive maximum score.
pub open spec fn is_first_max(scores: Seq<usize>, i: int) -> bool {
    &&& 0 <= i < scores.len()
    &&& scores[i] > 0
    &&& forall|j: int| 0 <= j < scores.len() ==> #[trigger] scores[j] <= scores[i]
    &&& forall|j: int| 0 <= j < i ==> #[trigger] scores[j] < scores[i]
}

/// The selected registry index: the first maximum when any codec matched,
/// else the last-registered codec.
pub open spec fn chosen_index(scores: Seq<usize>) -> int {
    if exists|i: int| is_first_max(scores, i) {
        choose|i: int| is_first_max(scores, i)
    } else {
        scores.len() - 1
    }
}

/// The first maximum is unique, so selection is deterministic.
pub proof fn lemma_chosen_is_first_max(scores: Seq<usize>, i: int)
    requires
        is_first_max(scores, i),
    ensures
        chosen_index(scores) == i,
{
    let w = choose|j: int| is_first_max(scores, j);
    assert(is_first_max(scores, w));
    if w < i {
        assert(scores[w] < scores[i]);
        assert(scores[i] <= scores[w]);
    } else if i < w {
        assert(scores[i] < scores[w]);
        assert(scores[w] <= scores[i]);
    }
}

pub open spec fn chosen_decoder(m: ResourceModel) -> CodecId {
    codec_order()[chosen_index(decode_scores(m))]
}

pub open spec fn chosen_encoder(m: ResourceModel) -> CodecId {
    codec_order()[chosen_index(encode_scores(m))]
}

/// The nesting budget: a container nested deeper than this is rejected with
/// a parse error instead of being recursed into without bound. The original
/// format never nests anywhere near this deep; the budget exists so that
/// every recursion in the library provably terminates.
pub const MAX_NESTING_DEPTH: u64 = 64;

pub open spec fn spec_max_depth() -> u64 {
    MAX_NESTING_DEPTH
}

/// What decoding does to a resource: select the best-scoring codec by
/// signature and apply it, expanding container children recursively.
pub open spec fn decode_model(m: ResourceModel, fuel: nat) -> Result<ResourceModel, DecodeFailure>
    decreases fuel, 2int, 0int,
{
    if fuel == 0 {
        Err(DecodeFailure::Parse)
    } else {
        match chosen_decoder(m) {
            CodecId::OldEngine => old_engine_codec::old_engine_decode_model(m),
            CodecId::Ogg => Ok(ogg_codec::ogg_decode_model(m)),
            CodecId::Osa => osa_codec::osa_decode_model(m, fuel),
            CodecId::Raw => Ok(raw_codec::raw_decode_model(m)),
            CodecId::SwordText => sword_text_codec::sword_decode_model(m),
            CodecId::Ttf => Ok(ttf_codec::ttf_decode_model(m)),
            CodecId::Txt => Ok(txt_codec::txt_decode_model(m)),
            CodecId::Vt7a => vt7a_codec::vt7a_decode_model(m, fuel),
            CodecId::Webm => Ok(webm_codec::webm_decode_model(m)),
            CodecId::Webp => Ok(webp_codec::webp_decode_model(m)),
            CodecId::Xml => Ok(xml_codec::xml_decode_model(m)),
        }
    }
}

/// What encoding does: the inverse, selected by tags; leaves pass through.
pub open spec fn encode_model(m: ResourceModel, fuel: nat) -> Result<ResourceModel, EncodeFailure>
    decreases fuel, 2int, 0int,
{
    if fuel == 0 {
        Err(EncodeFailure::Parse)
    } else {
        match chosen_encoder(m) {
            CodecId::Osa => osa_codec::osa_encode_model(m, fuel),
            CodecId::SwordText => sword_text_codec::sword_encode_model(m),
            CodecId::Vt7a => vt7a_codec::vt7a_encode_model(m, fuel),
            _ => Ok(m),
        }
    }
}

/// Encoding every child in order, post-order first.
pub open spec fn encode_children_model(children: Seq<ResourceModel>, k: int, fuel: nat) -> Result<
    Seq<ResourceModel>,
    EncodeFailure,
>
    decreases fuel, 0int, children.len() - k,
{
    if k < 0 || k >= children.len() {
        Ok(Seq::empty())
    } else if fuel == 0 {
        Err(EncodeFailure::Parse)
    } else {
        match encode_model(children[k], (fuel - 1) as nat) {
            Err(e) => Err(e),
            Ok(c) => match encode_children_model(children, k + 1, fuel) {
                Err(e) => Err(e),
                Ok(rest) => Ok(seq![c] + rest),
            },
        }
    }
}

/// When every child encodes, the whole list encodes pointwise.
pub proof fn lemma_encode_children_pointwise(
    orig: Seq<ResourceModel>,
    out: Seq<ResourceModel>,
    k: int,
    fuel: nat,
)
    requires
        0 <= k <= orig.len(),
        out.len() == orig.len() - k,
        fuel > 0 || k == orig.len(),
        forall|j: int|
            k <= j < orig.len() ==> #[trigger] encode_model(orig[j], (fuel - 1) as nat) == Ok::<
                ResourceModel,
                EncodeFailure,
            >(out[j - k]),
    ensures
        encode_children_model(orig, k, fuel) == Ok::<Seq<ResourceModel>, EncodeFailure>(out),
    decreases orig.len() - k,
{
    if k == orig.len() {
        assert(out =~= Seq::<ResourceModel>::empty());
    } else {
        lemma_encode_children_pointwise(orig, out.drop_first(), k + 1, fuel);
        assert(encode_model(orig[k], (fuel - 1) as nat) == Ok::<ResourceModel, EncodeFailure>(
            out[0],
        ));
        assert(seq![out[0]] + out.drop_first() =~= out);
    }
}

/// What loading children from extracted files does: select the encoder by
/// tags and let it materialize children named by its manifest.
pub open spec fn load_model(
    store: Seq<FileEntryModel>,
    base: Seq<u8>,
    m: ResourceModel,
    fuel: nat,
) -> Result<ResourceModel, EncodeFailure>
    decreases fuel, 2int, 0int,
{
    if fuel == 0 {
        Err(EncodeFailure::Parse)
    } else {
        match chosen_encoder(m) {
            CodecId::Osa => osa_codec::osa_load_model(store, base, m, fuel),
            CodecId::Vt7a => vt7a_codec::vt7a_load_model(store, base, m, fuel),
            _ => Ok(m),
        }
    }
}

/// The first child whose identifier matches, searched from `i`.
pub open spec fn find_child(children: Seq<ResourceModel>, id: u32, i: int) -> Option<int>
    decreases children.len() - i,
{
    if i < 0 || i >= children.len() {
        None
    } else if children[i].identifier == id {
        Some(i)
    } else {
        find_child(children, id, i + 1)
    }
}

/// How many of the listed identifiers have a matching child.
pub open spec fn matched_count(ids: Seq<u32>, children: Seq<ResourceModel>, k: int) -> nat
    decreases ids.len() - k,
{
    if k < 0 || k >= ids.len() {
        0
    } else {
        (if find_child(children, ids[k], 0) is Some {
            1nat
        } else {
            0nat
        }) + matched_count(ids, children, k + 1)
    }
}


/// The codec registry, in registration order.
fn get_codecs() -> (v: Vec<CodecId>)
    ensures
        v@ == codec_order(),
{
    let mut v: Vec<CodecId> = Vec::new();
    v.push(CodecId::OldEngine);
    v.push(CodecId::Ogg);
    v.push(CodecId::Osa);
    v.push(CodecId::Raw);
    v.push(CodecId::SwordText);
    v.push(CodecId::Ttf);
    v.push(CodecId::Txt);
    v.push(CodecId::Vt7a);
    v.push(CodecId::Webm);
    v.push(CodecId::Webp);
    v.push(CodecId::Xml);
    proof {
        assert(v@ =~= codec_order());
    }
    v
}

fn codec_decode_score(c: CodecId, resource: &Resource) -> (s: usize)
    ensures
        s == decode_score_of(c, resource@),
{
    match c {
        CodecId::OldEngine => (OldEngineCodec).matches_decoder(resource),
        CodecId::Ogg => (OggCodec).matches_decoder(resource),
        CodecId::Osa => (OsaCodec).matches_decoder(resource),
        CodecId::Raw => (RawCodec).matches_decoder(resource),
        CodecId::SwordText => (SwordTextCodec).matches_decoder(resource),
        CodecId::Ttf => (TtfCodec).matches_decoder(resource),
        CodecId::Txt => (TxtCodec).matches_decoder(resource),
        CodecId::Vt7a => (Vt7aCodec).matches_decoder(resource),
        CodecId::Webm => (WebmCodec).matches_decoder(resource),
        CodecId::Webp => (WebpCodec).matches_decoder(resource),
        CodecId::Xml => (XmlCodec).matches_decoder(resource),
    }
}

fn codec_encode_score(c: CodecId, resource: &Resource) -> (s: usize)
    ensures
        s == encode_score_of(c, resource@),
{
    match c {
        CodecId::OldEngine => (OldEngineCodec).matches_encoder(resource),
        CodecId::Ogg => (OggCodec).matches_encoder(resource),
        CodecId::Osa => (OsaCodec).matches_encoder(resource),
        CodecId::Raw => (RawCodec).matches_encoder(resource),
        CodecId::SwordText => (SwordTextCodec).matches_encoder(resource),
        CodecId::Ttf => (TtfCodec).matches_encoder(resource),
        CodecId::Txt => (TxtCodec).matches_encoder(resource),
        CodecId::Vt7a => (Vt7aCodec).matches_encoder(resource),
        CodecId::Webm => (WebmCodec).matches_encoder(resource),
        CodecId::Webp => (WebpCodec).matches_encoder(resource),
        CodecId::Xml => (XmlCodec).matches_encoder(resource),
    }
}

/// Run the linear best-score scan of the registry: the first strictly
/// greater score wins, and with no nonzero score the last codec stands.
fn select_index(scores: &Vec<usize>) -> (idx: usize)
    requires
        scores@.len() >= 1,
    ensures
        idx == chosen_index(scores@),
        0 <= idx < scores@.len(),
{
    let mut best: usize = 0;
    let mut best_idx: usize = scores.len() - 1;
    let mut i: usize = 0;
    while i < scores.len()
        invariant
            0 <= i <= scores@.len(),
            scores@.len() >= 1,
            best == 0 ==> best_idx == scores@.len() - 1 && (forall|j: int|
                0 <= j < i ==> #[trigger] scores@[j] == 0),
            best > 0 ==> 0 <= best_idx < i && scores@[best_idx as int] == best && (forall|j: int|
                0 <= j < i ==> #[trigger] scores@[j] <= best) && (forall|j: int|
                0 <= j < best_idx ==> #[trigger] scores@[j] < best),
        decreases scores@.len() - i,
    {
        let sc = scores[i];
        if sc > best {
            best = sc;
            best_idx = i;
        }
        i += 1;
    }
    proof {
        if best > 0 {
            assert(is_first_max(scores@, best_idx as int));
            lemma_chosen_is_first_max(scores@, best_idx as int);
        } else {
            assert forall|j: int| 0 <= j < scores@.len() implies !is_first_max(scores@, j) by {
                assert(scores@[j] == 0);
            }
            assert(chosen_index(scores@) == scores@.len() - 1);
        }
    }
    best_idx
}

/// Compute every decoder score for the resource, in registration order.
fn decode_score_vec(resource: &Resource) -> (v: Vec<usize>)
    ensures
        v@ == decode_scores(resource@),
{
    let codecs = get_codecs();
    let mut v: Vec<usize> = Vec::new();
    let mut i: usize = 0;
    while i < codecs.len()
        invariant
            0 <= i <= codecs@.len(),
            codecs@ == codec_order(),
            v@.len() == i,
            forall|j: int| 0 <= j < i ==> #[trigger] v@[j] == decode_score_of(codec_order()[j], resource@),
        decreases codecs@.len() - i,
    {
        let s = codec_decode_score(codecs[i], resource);
        v.push(s);
        i += 1;
    }
    proof {
        assert(v@ =~= decode_scores(resource@));
    }
    v
}

/// Compute every encoder score for the resource, in registration order.
fn encode_score_vec(resource: &Resource) -> (v: Vec<usize>)
    ensures
        v@ == encode_scores(resource@),
{
    let codecs = get_codecs();
    let mut v: Vec<usize> = Vec::new();
    let mut i: usize = 0;
    while i < codecs.len()
        invariant
            0 <= i <= codecs@.len(),
            codecs@ == codec_order(),
            v@.len() == i,
            forall|j: int| 0 <= j < i ==> #[trigger] v@[j] == encode_score_of(codec_order()[j], resource@),
        decreases codecs@.len() - i,
    {
        let s = codec_encode_score(codecs[i], resource);
        v.push(s);
        i += 1;
    }
    proof {
        assert(v@ =~= encode_scores(resource@));
    }
    v
}

/// Decode with an explicit nesting budget.
pub(crate) fn decode_at_depth(resource: &mut Resource, depth: u64) -> (r: Result<
    (),
    DecodingError,
>)
    ensures
        match decode_model(old(resource)@, depth as nat) {
            Ok(mm) => r is Ok && final(resource)@ == mm,
            Err(k) => (r matches Err(e) && e.kind() == k) && *final(resource) == *old(resource),
        },
    decreases depth, 2int, 0int,
{
    if depth == 0 {
        return Err(
            DecodingError::ParsingError(String::from_str("container nesting is too deep")),
        );
    }
    let scores = decode_score_vec(resource);
    let idx = select_index(&scores);
    let codecs = get_codecs();
    let c = codecs[idx];
    proof {
        assert(c == chosen_decoder(resource@));
    }
    match c {
        CodecId::OldEngine => (OldEngineCodec).decode(resource),
        CodecId::Ogg => (OggCodec).decode(resource),
        CodecId::Osa => osa_codec::osa_decode_at_depth(resource, depth),
        CodecId::Raw => (RawCodec).decode(resource),
        CodecId::SwordText => sword_text_codec::sword_decode(resource),
        CodecId::Ttf => (TtfCodec).decode(resource),
        CodecId::Txt => (TxtCodec).decode(resource),
        CodecId::Vt7a => vt7a_codec::vt7a_decode_at_depth(resource, depth),
        CodecId::Webm => (WebmCodec).decode(resource),
        CodecId::Webp => (WebpCodec).decode(resource),
        CodecId::Xml => (XmlCodec).decode(resource),
    }
}

/// Decode a resource in place: select the single best-matching codec by
/// signature score and apply it, expanding containers recursively.
pub fn decode(resource: &mut Resource) -> (r: Result<(), DecodingError>)
    ensures
        match decode_model(old(resource)@, spec_max_depth() as nat) {
            Ok(mm) => r is Ok && final(resource)@ == mm,
            Err(k) => (r matches Err(e) && e.kind() == k) && *final(resource) == *old(resource),
        },
{
    decode_at_depth(resource, MAX_NESTING_DEPTH)
}


/// A failing child stops the whole list with its error.
pub proof fn lemma_encode_children_err(
    orig: Seq<ResourceModel>,
    i: int,
    k: int,
    fuel: nat,
    kk: EncodeFailure,
)
    requires
        0 <= i <= k < orig.len(),
        fuel > 0,
        forall|j: int| i <= j < k ==> #[trigger] encode_model(orig[j], (fuel - 1) as nat) is Ok,
        encode_model(orig[k], (fuel - 1) as nat) == Err::<ResourceModel, EncodeFailure>(kk),
    ensures
        encode_children_model(orig, i, fuel) == Err::<Seq<ResourceModel>, EncodeFailure>(kk),
    decreases k - i,
{
    if i < k {
        lemma_encode_children_err(orig, i + 1, k, fuel, kk);
        assert(encode_model(orig[i], (fuel - 1) as nat) is Ok);
    } else {
        assert(encode_model(orig[i], (fuel - 1) as nat) == Err::<ResourceModel, EncodeFailure>(
            kk,
        ));
    }
}

/// The step bridge: a failing child at `k`, stated over the runtime depth.
proof fn lemma_children_err_bridge(orig: Seq<ResourceModel>, k: int, depth: u64, kk: EncodeFailure)
    requires
        depth >= 1,
        0 <= k < orig.len(),
        forall|j: int| 0 <= j < k ==> #[trigger] encode_model(orig[j], (depth - 1) as nat) is Ok,
        encode_model(orig[k], (depth - 1) as nat) == Err::<ResourceModel, EncodeFailure>(kk),
    ensures
        encode_children_model(orig, 0, depth as nat) == Err::<Seq<ResourceModel>, EncodeFailure>(
            kk,
        ),
{
    assert forall|j: int| 0 <= j < k implies #[trigger] encode_model(
        orig[j],
        ((depth as nat) - 1) as nat,
    ) == encode_model(orig[j], (depth - 1) as nat) by {
        assert(((depth as nat) - 1) as nat == (depth - 1) as nat);
    }
    assert(((depth as nat) - 1) as nat == (depth - 1) as nat);
    assert(encode_model(orig[k], ((depth as nat) - 1) as nat) == encode_model(
        orig[k],
        (depth - 1) as nat,
    ));
    lemma_encode_children_err(orig, 0, k, depth as nat, kk);
}

/// The finish bridge: every child encoded, stated over the runtime depth.
proof fn lemma_children_ok_bridge(orig: Seq<ResourceModel>, out: Seq<ResourceModel>, depth: u64)
    requires
        depth >= 1,
        out.len() == orig.len(),
        forall|j: int|
            0 <= j < orig.len() ==> #[trigger] encode_model(orig[j], (depth - 1) as nat) == Ok::<
                ResourceModel,
                EncodeFailure,
            >(out[j]),
    ensures
        encode_children_model(orig, 0, depth as nat) == Ok::<Seq<ResourceModel>, EncodeFailure>(
            out,
        ),
{
    assert forall|j: int| 0 <= j < orig.len() implies #[trigger] encode_model(
        orig[j],
        ((depth as nat) - 1) as nat,
    ) == encode_model(orig[j], (depth - 1) as nat) by {
        assert(((depth as nat) - 1) as nat == (depth - 1) as nat);
    }
    lemma_encode_children_pointwise(orig, out, 0, depth as nat);
}

/// Encode every child in place, post-order.
#[verifier::rlimit(100)]
#[verifier::spinoff_prover]
pub(crate) fn encode_children_at_depth(children: &mut Vec<Resource>, depth: u64) -> (r: Result<
    (),
    EncodingError,
>)
    requires
        depth >= 1,
    ensures
        match encode_children_model(
            Resource::models_from(*old(children), 0),
            0,
            depth as nat,
        ) {
            Ok(ms) => r is Ok && Resource::models_from(*final(children), 0) == ms,
            Err(k) => r matches Err(e) && e.kind() == k,
        },
        final(children)@.len() == old(children)@.len(),
    decreases depth, 0int, 0int,
{
    let ghost orig = Resource::models_from(*old(children), 0);
    proof {
        crate::resource::lemma_models_from(*old(children), 0);
    }
    let n = children.len();
    let mut k: usize = 0;
    while k < n
        invariant
            0 <= k <= n,
            depth >= 1,
            n == children@.len(),
            children@.len() == old(children)@.len(),
            orig == Resource::models_from(*old(children), 0),
            orig.len() == n,
            forall|j: int| k <= j < n ==> #[trigger] children@[j] == old(children)@[j],
            forall|j: int| 0 <= j < n ==> #[trigger] orig[j] == old(children)@[j].model(),
            forall|j: int|
                0 <= j < k ==> #[trigger] encode_model(orig[j], (depth - 1) as nat) == Ok::<
                    ResourceModel,
                    EncodeFailure,
                >(children@[j].model()),
        decreases n - k,
    {
        let ghost before = children@;
        let mut c = children.remove(k);
        let ghost c0 = c;
        let res = encode_at_depth(&mut c, depth - 1);
        children.insert(k, c);
        proof {
            assert(children@ =~= before.update(k as int, children@[k as int]));
        }
        match res {
            Err(e) => {
                proof {
                    assert(c0 == old(children)@[k as int]);
                    assert(c0@ == orig[k as int]);
                    assert(encode_model(orig[k as int], (depth - 1) as nat) == Err::<
                        ResourceModel,
                        EncodeFailure,
                    >(e.kind()));
                    lemma_children_err_bridge(orig, k as int, depth, e.kind());
                }
                return Err(e);
            },
            Ok(_) => {},
        }
        k += 1;
    }
    proof {
        crate::resource::lemma_models_from(*children, 0);
        let out = Resource::models_from(*children, 0);
        assert forall|j: int| 0 <= j < n as int implies #[trigger] encode_model(
            orig[j],
            (depth - 1) as nat,
        ) == Ok::<ResourceModel, EncodeFailure>(out[j]) by {
            assert(out[j] == children@[j].model());
        }
        lemma_children_ok_bridge(orig, out, depth);
    }
    Ok(())
}

/// Find the first child carrying the identifier.
pub(crate) fn find_child_exec(children: &Vec<Resource>, id: u32) -> (r: Option<usize>)
    ensures
        match r {
            Some(ci) => find_child(Resource::models_from(*children, 0), id, 0) == Some(
                ci as int,
            ) && ci < children@.len(),
            None => find_child(Resource::models_from(*children, 0), id, 0) is None,
        },
{
    proof {
        crate::resource::lemma_models_from(*children, 0);
    }
    let ghost cms = Resource::models_from(*children, 0);
    let mut i: usize = 0;
    while i < children.len()
        invariant
            0 <= i <= children@.len(),
            cms == Resource::models_from(*children, 0),
            cms.len() == children@.len(),
            forall|j: int| 0 <= j < cms.len() ==> #[trigger] cms[j] == children@[j].model(),
            find_child(cms, id, 0) == find_child(cms, id, i as int),
        decreases children@.len() - i,
    {
        if children[i].identifier == id {
            return Some(i);
        }
        i += 1;
    }
    None
}

/// Encode with an explicit nesting budget. On an error the tags, payload
/// and identity are untouched; only children may already stand re-encoded.
pub(crate) fn encode_at_depth(resource: &mut Resource, depth: u64) -> (r: Result<
    (),
    EncodingError,
>)
    ensures
        match encode_model(old(resource)@, depth as nat) {
            Ok(mm) => r is Ok && final(resource)@ == mm,
            Err(k) => r matches Err(e) && e.kind() == k,
        },
        r is Err ==> final(resource).data == old(resource).data && final(resource).identifier
            == old(resource).identifier && final(resource).format == old(resource).format
            && final(resource).extension == old(resource).extension && final(resource).hidden
            == old(resource).hidden && final(resource).subresources@.len() == old(
            resource,
        ).subresources@.len(),
    decreases depth, 2int, 0int,
{
    if depth == 0 {
        return Err(
            EncodingError::ParsingError(String::from_str("container nesting is too deep")),
        );
    }
    let scores = encode_score_vec(resource);
    let idx = select_index(&scores);
    let codecs = get_codecs();
    let c = codecs[idx];
    proof {
        assert(c == chosen_encoder(resource@));
    }
    match c {
        CodecId::Osa => osa_codec::osa_encode_at_depth(resource, depth),
        CodecId::SwordText => sword_text_codec::sword_encode(resource),
        CodecId::Vt7a => vt7a_codec::vt7a_encode_at_depth(resource, depth),
        _ => Ok(()),
    }
}

/// Encode a resource in place: the inverse of decoding, dispatched on the
/// resource's tags. After encoding, a container's payload holds the raw
/// archive bytes again and its children are cleared.
pub fn encode(resource: &mut Resource) -> (r: Result<(), EncodingError>)
    ensures
        match encode_model(old(resource)@, spec_max_depth() as nat) {
            Ok(mm) => r is Ok && final(resource)@ == mm,
            Err(k) => r matches Err(e) && e.kind() == k,
        },
        r is Err ==> final(resource).data == old(resource).data && final(resource).identifier
            == old(resource).identifier && final(resource).format == old(resource).format
            && final(resource).extension == old(resource).extension && final(resource).hidden
            == old(resource).hidden && final(resource).subresources@.len() == old(
            resource,
        ).subresources@.len(),
{
    encode_at_depth(resource, MAX_NESTING_DEPTH)
}

/// Load children with an explicit nesting budget.
pub(crate) fn load_at_depth(
    store: &FileStore,
    base: &[u8],
    resource: &mut Resource,
    depth: u64,
) -> (r: Result<(), EncodingError>)
    ensures
        match load_model(store@, base@, old(resource)@, depth as nat) {
            Ok(mm) => r is Ok && final(resource)@ == mm,
            Err(k) => r matches Err(e) && e.kind() == k,
        },
    decreases depth, 2int, 0int,
{
    if depth == 0 {
        return Err(
            EncodingError::ParsingError(String::from_str("container nesting is too deep")),
        );
    }
    let scores = encode_score_vec(resource);
    let idx = select_index(&scores);
    let codecs = get_codecs();
    let c = codecs[idx];
    proof {
        assert(c == chosen_encoder(resource@));
    }
    match c {
        CodecId::Osa => osa_codec::osa_load_at_depth(store, base, resource, depth),
        CodecId::Vt7a => vt7a_codec::vt7a_load_at_depth(store, base, resource, depth),
        _ => Ok(()),
    }
}

/// Materialize a resource's children from extracted files, as named by the
/// manifest sitting in its payload. The caller hands in the files it has
/// read; the library performs no disk access itself.
pub fn load_subresources(store: &FileStore, base: &[u8], resource: &mut Resource) -> (r: Result<
    (),
    EncodingError,
>)
    ensures
        match load_model(store@, base@, old(resource)@, spec_max_depth() as nat) {
            Ok(mm) => r is Ok && final(resource)@ == mm,
            Err(k) => r matches Err(e) && e.kind() == k,
        },
{
    load_at_depth(store, base, resource, MAX_NESTING_DEPTH)
}


// ---------------------------------------------------------------------------
// Laws of the dispatch engine
// ---------------------------------------------------------------------------
/// Tie-break determinism: when two codecs reach the same nonzero score and
/// nothing scores higher, the earlier-registered codec is selected; selection
/// is a function of the scores, so repeated runs agree.
pub proof fn lemma_tie_break(scores: Seq<usize>, i: int, j: int)
    requires
        0 <= i < j < scores.len(),
        scores[i] == scores[j],
        scores[i] > 0,
        forall|k: int| 0 <= k < scores.len() ==> #[trigger] scores[k] <= scores[i],
    ensures
        chosen_index(scores) <= i,
        chosen_index(scores) != j,
{
    first_max_exists(scores, i);
    let f = choose|k: int| is_first_max(scores, k);
    assert(is_first_max(scores, f));
    lemma_chosen_is_first_max(scores, f);
    assert(f <= i) by {
        if f > i {
            assert(scores[i] < scores[f]);
            assert(scores[f] <= scores[i]);
        }
    }
    assert(scores[j] <= scores[f]);
}

/// Some index is a first maximum whenever some index attains a positive
/// maximal score.
proof fn first_max_exists(scores: Seq<usize>, i: int)
    requires
        0 <= i < scores.len(),
        scores[i] > 0,
        forall|k: int| 0 <= k < scores.len() ==> #[trigger] scores[k] <= scores[i],
    ensures
        exists|k: int| is_first_max(scores, k),
    decreases i,
{
    if forall|k2: int| 0 <= k2 < i ==> #[trigger] scores[k2] < scores[i] {
        assert(is_first_max(scores, i));
    } else {
        let w = choose|k2: int| 0 <= k2 < i && !(scores[k2] < scores[i]);
        assert(scores[w] == scores[i]);
        first_max_exists(scores, w);
    }
}

/// Fallback guarantee: on bytes no signature-driven codec matches, decoding
/// always succeeds through the catch-all codec, which tags the resource raw
/// and marks it invisible, leaving its bytes untouched.
pub proof fn lemma_fallback_guarantee(m: ResourceModel, fuel: nat)
    requires
        fuel > 0,
        forall|i: int| 0 <= i < 11 && i != 3 ==> #[trigger] decode_scores(m)[i] == 0,
    ensures
        decode_model(m, fuel) == Ok::<ResourceModel, DecodeFailure>(
            raw_codec::raw_decode_model(m),
        ),
        decode_model(m, fuel)->Ok_0.extension == Some(raw_codec::raw_tag()),
        decode_model(m, fuel)->Ok_0.hidden,
        decode_model(m, fuel)->Ok_0.data == m.data,
{
    let scores = decode_scores(m);
    assert(scores[3] == decode_score_of(CodecId::Raw, m));
    assert(scores[3] == 10);
    assert(is_first_max(scores, 3)) by {
        assert forall|k: int| 0 <= k < scores.len() implies #[trigger] scores[k] <= scores[3] by {
            if k != 3 {
                assert(scores[k] == 0);
            }
        }
        assert forall|k: int| 0 <= k < 3 implies #[trigger] scores[k] < scores[3] by {
            assert(scores[k] == 0);
        }
    }
    lemma_chosen_is_first_max(scores, 3);
    assert(chosen_decoder(m) == CodecId::Raw);
}

/// Idempotent classification, decode side: a payload that starts with the
/// manifest's opening bracket matches no container signature, so decoding a
/// decoded resource can never select a container codec again.
pub proof fn lemma_manifest_matches_no_container(m: ResourceModel)
    requires
        m.data.len() >= 1,
        m.data[0] == 0x5b,
    ensures
        osa_codec::osa_decode_score(m) == 0,
        vt7a_codec::vt7a_decode_score(m) == 0,
        sword_text_codec::sword_decode_score(m) == 0,
        old_engine_codec::old_engine_decode_score(m) == 0,
{
    assert(!crate::textfmt::has_prefix(m.data, osa_codec::osa_magic())) by {
        if crate::textfmt::has_prefix(m.data, osa_codec::osa_magic()) {
            assert(m.data.subrange(0, 4)[0] == 0x41);
        }
    }
    assert(!crate::textfmt::has_prefix(m.data, vt7a_codec::vt7a_magic())) by {
        if crate::textfmt::has_prefix(m.data, vt7a_codec::vt7a_magic()) {
            assert(m.data.subrange(0, 4)[0] == 0x56);
        }
    }
    assert(!crate::textfmt::has_prefix(m.data, sword_text_codec::sword_magic())) by {
        if crate::textfmt::has_prefix(m.data, sword_text_codec::sword_magic()) {
            assert(m.data.subrange(0, 4)[0] == 0x54);
        }
    }
    assert(!crate::textfmt::has_prefix(m.data, old_engine_codec::hdr_chrtxt())) by {
        if crate::textfmt::has_prefix(m.data, old_engine_codec::hdr_chrtxt()) {
            assert(m.data.subrange(0, 6)[0] == 0x43);
        }
    }
    assert(!crate::textfmt::has_prefix(m.data, old_engine_codec::hdr_script())) by {
        if crate::textfmt::has_prefix(m.data, old_engine_codec::hdr_script()) {
            assert(m.data.subrange(0, 6)[0] == 0x53);
        }
    }
    assert(!crate::textfmt::has_prefix(m.data, old_engine_codec::hdr_lyridx())) by {
        if crate::textfmt::has_prefix(m.data, old_engine_codec::hdr_lyridx()) {
            assert(m.data.subrange(0, 6)[0] == 0x4c);
        }
    }
    assert(!crate::textfmt::has_prefix(m.data, old_engine_codec::hdr_compat())) by {
        if crate::textfmt::has_prefix(m.data, old_engine_codec::hdr_compat()) {
            assert(m.data.subrange(0, 6)[0] == 0x43);
        }
    }
    assert(!crate::textfmt::has_prefix(m.data, old_engine_codec::hdr_sprite())) by {
        if crate::textfmt::has_prefix(m.data, old_engine_codec::hdr_sprite()) {
            assert(m.data.subrange(0, 6)[0] == 0x53);
        }
    }
}

/// Idempotent classification, encode side: a decoded archive's manifest tags
/// route encoding only to the one container codec that owns the format tag.
pub proof fn lemma_manifest_routes_to_owner(m: ResourceModel)
    requires
        m.extension == Some(json_tag()),
        m.format == Some(osa_codec::osa_tag()) || m.format == Some(vt7a_codec::vt7a_tag())
            || m.format == Some(vt7a_codec::vt7a2_tag()) || m.format == Some(
            vt7a_codec::vt7a3_tag(),
        ) || m.format == Some(sword_text_codec::sword_text_tag()),
    ensures
        m.format == Some(osa_codec::osa_tag()) ==> chosen_encoder(m) == CodecId::Osa,
        (m.format == Some(vt7a_codec::vt7a_tag()) || m.format == Some(vt7a_codec::vt7a2_tag())
            || m.format == Some(vt7a_codec::vt7a3_tag())) ==> chosen_encoder(m) == CodecId::Vt7a,
        m.format == Some(sword_text_codec::sword_text_tag()) ==> chosen_encoder(m)
            == CodecId::SwordText,
{
    let scores = encode_scores(m);
    lemma_json_tag_is_no_leaf_tag(m);
    if m.format == Some(osa_codec::osa_tag()) {
        assert(scores[2] == 100);
        assert(is_first_max(scores, 2)) by {
            assert(osa_codec::osa_tag() != vt7a_codec::vt7a_tag());
            assert(osa_codec::osa_tag() =~= osa_codec::osa_tag());
            assert forall|k: int| 0 <= k < scores.len() implies #[trigger] scores[k] <= scores[2]
            by {
                if k != 2 {
                    lemma_format_tags_distinct(m);
                }
            }
            assert forall|k: int| 0 <= k < 2 implies #[trigger] scores[k] < scores[2] by {}
        }
        lemma_chosen_is_first_max(scores, 2);
    } else if m.format == Some(sword_text_codec::sword_text_tag()) {
        assert(scores[4] == 100);
        assert(is_first_max(scores, 4)) by {
            assert forall|k: int| 0 <= k < scores.len() implies #[trigger] scores[k] <= scores[4]
            by {
                if k != 4 {
                    lemma_format_tags_distinct(m);
                }
            }
            assert forall|k: int| 0 <= k < 4 implies #[trigger] scores[k] < scores[4] by {
                lemma_format_tags_distinct(m);
            }
        }
        lemma_chosen_is_first_max(scores, 4);
    } else {
        assert(scores[7] == 100);
        assert(is_first_max(scores, 7)) by {
            assert forall|k: int| 0 <= k < scores.len() implies #[trigger] scores[k] <= scores[7]
            by {
                if k != 7 {
                    lemma_format_tags_distinct(m);
                }
            }
            assert forall|k: int| 0 <= k < 7 implies #[trigger] scores[k] < scores[7] by {
                lemma_format_tags_distinct(m);
            }
        }
        lemma_chosen_is_first_max(scores, 7);
    }
}

/// The `json` content tag equals no leaf codec's tag.
proof fn lemma_json_tag_is_no_leaf_tag(m: ResourceModel)
    requires
        m.extension == Some(json_tag()),
    ensures
        ogg_codec::ogg_encode_score(m) == 0,
        old_engine_codec::old_engine_encode_score(m) == 0,
        ttf_codec::ttf_encode_score(m) == 0,
        txt_codec::txt_encode_score(m) == 0,
        webm_codec::webm_encode_score(m) == 0,
        webp_codec::webp_encode_score(m) == 0,
        xml_codec::xml_encode_score(m) == 0,
{
    assert(json_tag()[0] == 0x6a);
    assert(ogg_codec::ogg_tag()[0] == 0x6f);
    assert(ttf_codec::ttf_tag().len() == 3);
    assert(json_tag().len() == 4);
    assert(txt_codec::txt_tag().len() == 3);
    assert(old_engine_codec::old_engine_tag().len() == 9);
    assert(webm_codec::webm_tag()[0] == 0x77);
    assert(webp_codec::webp_tag()[0] == 0x77);
    assert(xml_codec::xml_tag().len() == 3);
}

/// The container format tags are pairwise distinct, so only the owning
/// container codec can score on a manifest's format tag.
proof fn lemma_format_tags_distinct(m: ResourceModel)
    requires
        m.extension == Some(json_tag()),
    ensures
        m.format == Some(osa_codec::osa_tag()) ==> vt7a_codec::vt7a_encode_score(m) == 0
            && sword_text_codec::sword_encode_score(m) == 0,
        (m.format == Some(vt7a_codec::vt7a_tag()) || m.format == Some(vt7a_codec::vt7a2_tag())
            || m.format == Some(vt7a_codec::vt7a3_tag())) ==> osa_codec::osa_encode_score(m) == 0
            && sword_text_codec::sword_encode_score(m) == 0,
        m.format == Some(sword_text_codec::sword_text_tag()) ==> osa_codec::osa_encode_score(m)
            == 0 && vt7a_codec::vt7a_encode_score(m) == 0,
        ogg_codec::ogg_encode_score(m) == 0,
        old_engine_codec::old_engine_encode_score(m) == 0,
        ttf_codec::ttf_encode_score(m) == 0,
        txt_codec::txt_encode_score(m) == 0,
        webm_codec::webm_encode_score(m) == 0,
        webp_codec::webp_encode_score(m) == 0,
        xml_codec::xml_encode_score(m) == 0,
{
    lemma_json_tag_is_no_leaf_tag(m);
    assert(osa_codec::osa_tag().len() == 3);
    assert(vt7a_codec::vt7a_tag().len() == 4);
    assert(vt7a_codec::vt7a2_tag().len() == 5);
    assert(vt7a_codec::vt7a3_tag().len() == 5);
    assert(sword_text_codec::sword_text_tag().len() == 10);
    assert(vt7a_codec::vt7a2_tag()[4] == 0x32);
    assert(vt7a_codec::vt7a3_tag()[4] == 0x33);
}

/// Partial edit tolerance: a manifest record whose identifier matches no
/// child contributes nothing to the rebuilt archive; the record is skipped
/// and the remaining records stand exactly as they would without it.
pub proof fn lemma_partial_edit_tolerance_vt7a(
    items: Seq<vt7a_codec::Vt7aItemModel>,
    children: Seq<ResourceModel>,
    fmt: crate::compression::CompressionFormat,
    k: int,
    off: int,
)
    requires
        0 <= k < items.len(),
        find_child(children, items[k].identifier, 0) is None,
    ensures
        vt7a_codec::vt7a_entries_model(items, children, fmt, k, off)
            == vt7a_codec::vt7a_entries_model(items, children, fmt, k + 1, off),
        matched_count(vt7a_codec::vt7a_item_ids(items), children, k) == matched_count(
            vt7a_codec::vt7a_item_ids(items),
            children,
            k + 1,
        ),
{
    assert(vt7a_codec::vt7a_item_ids(items)[k] == items[k].identifier);
}

/// Partial edit tolerance for the simple directory archive.
pub proof fn lemma_partial_edit_tolerance_osa(
    items: Seq<osa_codec::OsaItemModel>,
    children: Seq<ResourceModel>,
    k: int,
    off: int,
)
    requires
        0 <= k < items.len(),
        find_child(children, items[k].identifier, 0) is None,
    ensures
        osa_codec::osa_entries_model(items, children, k, off) == osa_codec::osa_entries_model(
            items,
            children,
            k + 1,
            off,
        ),
        matched_count(osa_codec::osa_item_ids(items), children, k) == matched_count(
            osa_codec::osa_item_ids(items),
            children,
            k + 1,
        ),
{
    assert(osa_codec::osa_item_ids(items)[k] == items[k].identifier);
}


// ---------------------------------------------------------------------------
// The codec capability contract
// ---------------------------------------------------------------------------
/// The decode half of the capability contract every format plugin offers:
/// a confidence score against raw bytes, and an in-place transformation
/// described exactly by the implementation's own model function.
pub trait Decoder {
    spec fn decode_score_spec(&self, m: ResourceModel) -> usize;

    spec fn decode_spec(&self, m: ResourceModel) -> Result<ResourceModel, DecodeFailure>;

    fn matches_decoder(&self, resource: &Resource) -> (score: usize)
        ensures
            score == self.decode_score_spec(resource@),
    ;

    fn decode(&self, resource: &mut Resource) -> (r: Result<(), DecodingError>)
        ensures
            match self.decode_spec(old(resource)@) {
                Ok(mm) => r is Ok && final(resource)@ == mm,
                Err(k) => r matches Err(e) && e.kind() == k,
            },
    ;
}

/// The encode half: a confidence score against the tag pair, loading
/// children from extracted files, and the inverse in-place serialization.
pub trait Encoder {
    spec fn encode_score_spec(&self, m: ResourceModel) -> usize;

    spec fn load_spec(
        &self,
        store: Seq<FileEntryModel>,
        base: Seq<u8>,
        m: ResourceModel,
    ) -> Result<ResourceModel, EncodeFailure>;

    spec fn encode_spec(&self, m: ResourceModel) -> Result<ResourceModel, EncodeFailure>;

    fn matches_encoder(&self, resource: &Resource) -> (score: usize)
        ensures
            score == self.encode_score_spec(resource@),
    ;

    fn load_subresources(&self, store: &FileStore, base: &[u8], resource: &mut Resource) -> (r:
        Result<(), EncodingError>)
        ensures
            match self.load_spec(store@, base@, old(resource)@) {
                Ok(mm) => r is Ok && final(resource)@ == mm,
                Err(k) => r matches Err(e) && e.kind() == k,
            },
    ;

    fn encode(&self, resource: &mut Resource) -> (r: Result<(), EncodingError>)
        ensures
            match self.encode_spec(old(resource)@) {
                Ok(mm) => r is Ok && final(resource)@ == mm,
                Err(k) => r matches Err(e) && e.kind() == k,
            },
    ;
}

/// A full codec is both halves.
pub trait Codec: Decoder + Encoder {

}

impl Decoder for OggCodec {
    open spec fn decode_score_spec(&self, m: ResourceModel) -> usize {
        ogg_codec::ogg_decode_score(m)
    }

    open spec fn decode_spec(&self, m: ResourceModel) -> Result<ResourceModel, DecodeFailure> {
        Ok(ogg_codec::ogg_decode_model(m))
    }

    fn matches_decoder(&self, resource: &Resource) -> (score: usize) {
        OggCodec::matches_decoder(self, resource)
    }

    fn decode(&self, resource: &mut Resource) -> (r: Result<(), DecodingError>) {
        OggCodec::decode(self, resource)
    }
}

impl Encoder for OggCodec {
    open spec fn encode_score_spec(&self, m: ResourceModel) -> usize {
        ogg_codec::ogg_encode_score(m)
    }

    open spec fn load_spec(
        &self,
        store: Seq<FileEntryModel>,
        base: Seq<u8>,
        m: ResourceModel,
    ) -> Result<ResourceModel, EncodeFailure> {
        Ok(m)
    }

    open spec fn encode_spec(&self, m: ResourceModel) -> Result<ResourceModel, EncodeFailure> {
        Ok(m)
    }

    fn matches_encoder(&self, resource: &Resource) -> (score: usize) {
        OggCodec::matches_encoder(self, resource)
    }

    fn load_subresources(&self, store: &FileStore, base: &[u8], resource: &mut Resource) -> (r:
        Result<(), EncodingError>) {
        OggCodec::load_subresources(self, store, base, resource)
    }

    fn encode(&self, resource: &mut Resource) -> (r: Result<(), EncodingError>) {
        OggCodec::encode(self, resource)
    }
}

impl Codec for OggCodec {

}

impl Decoder for TtfCodec {
    open spec fn decode_score_spec(&self, m: ResourceModel) -> usize {
        ttf_codec::ttf_decode_score(m)
    }

    open spec fn decode_spec(&self, m: ResourceModel) -> Result<ResourceModel, DecodeFailure> {
        Ok(ttf_codec::ttf_decode_model(m))
    }

    fn matches_decoder(&self, resource: &Resource) -> (score: usize) {
        TtfCodec::matches_decoder(self, resource)
    }

    fn decode(&self, resource: &mut Resource) -> (r: Result<(), DecodingError>) {
        TtfCodec::decode(self, resource)
    }
}

impl Encoder for TtfCodec {
    open spec fn encode_score_spec(&self, m: ResourceModel) -> usize {
        ttf_codec::ttf_encode_score(m)
    }

    open spec fn load_spec(
        &self,
        store: Seq<FileEntryModel>,
        base: Seq<u8>,
        m: ResourceModel,
    ) -> Result<ResourceModel, EncodeFailure> {
        Ok(m)
    }

    open spec fn encode_spec(&self, m: ResourceModel) -> Result<ResourceModel, EncodeFailure> {
        Ok(m)
    }

    fn matches_encoder(&self, resource: &Resource) -> (score: usize) {
        TtfCodec::matches_encoder(self, resource)
    }

    fn load_subresources(&self, store: &FileStore, base: &[u8], resource: &mut Resource) -> (r:
        Result<(), EncodingError>) {
        TtfCodec::load_subresources(self, store, base, resource)
    }

    fn encode(&self, resource: &mut Resource) -> (r: Result<(), EncodingError>) {
        TtfCodec::encode(self, resource)
    }
}

impl Codec for TtfCodec {

}

impl Decoder for TxtCodec {
    open spec fn decode_score_spec(&self, m: ResourceModel) -> usize {
        txt_codec::txt_decode_score(m)
    }

    open spec fn decode_spec(&self, m: ResourceModel) -> Result<ResourceModel, DecodeFailure> {
        Ok(txt_codec::txt_decode_model(m))
    }

    fn matches_decoder(&self, resource: &Resource) -> (score: usize) {
        TxtCodec::matches_decoder(self, resource)
    }

    fn decode(&self, resource: &mut Resource) -> (r: Result<(), DecodingError>) {
        TxtCodec::decode(self, resource)
    }
}

impl Encoder for TxtCodec {
    open spec fn encode_score_spec(&self, m: ResourceModel) -> usize {
        txt_codec::txt_encode_score(m)
    }

    open spec fn load_spec(
        &self,
        store: Seq<FileEntryModel>,
        base: Seq<u8>,
        m: ResourceModel,
    ) -> Result<ResourceModel, EncodeFailure> {
        Ok(m)
    }

    open spec fn encode_spec(&self, m: ResourceModel) -> Result<ResourceModel, EncodeFailure> {
        Ok(m)
    }

    fn matches_encoder(&self, resource: &Resource) -> (score: usize) {
        TxtCodec::matches_encoder(self, resource)
    }

    fn load_subresources(&self, store: &FileStore, base: &[u8], resource: &mut Resource) -> (r:
        Result<(), EncodingError>) {
        TxtCodec::load_subresources(self, store, base, resource)
    }

    fn encode(&self, resource: &mut Resource) -> (r: Result<(), EncodingError>) {
        TxtCodec::encode(self, resource)
    }
}

impl Codec for TxtCodec {

}

impl Decoder for WebmCodec {
    open spec fn decode_score_spec(&self, m: ResourceModel) -> usize {
        webm_codec::webm_decode_score(m)
    }

    open spec fn decode_spec(&self, m: ResourceModel) -> Result<ResourceModel, DecodeFailure> {
        Ok(webm_codec::webm_decode_model(m))
    }

    fn matches_decoder(&self, resource: &Resource) -> (score: usize) {
        WebmCodec::matches_decoder(self, resource)
    }

    fn decode(&self, resource: &mut Resource) -> (r: Result<(), DecodingError>) {
        WebmCodec::decode(self, resource)
    }
}

impl Encoder for WebmCodec {
    open spec fn encode_score_spec(&self, m: ResourceModel) -> usize {
        webm_codec::webm_encode_score(m)
    }

    open spec fn load_spec(
        &self,
        store: Seq<FileEntryModel>,
        base: Seq<u8>,
        m: ResourceModel,
    ) -> Result<ResourceModel, EncodeFailure> {
        Ok(m)
    }

    open spec fn encode_spec(&self, m: ResourceModel) -> Result<ResourceModel, EncodeFailure> {
        Ok(m)
    }

    fn matches_encoder(&self, resource: &Resource) -> (score: usize) {
        WebmCodec::matches_encoder(self, resource)
    }

    fn load_subresources(&self, store: &FileStore, base: &[u8], resource: &mut Resource) -> (r:
        Result<(), EncodingError>) {
        WebmCodec::load_subresources(self, store, base, resource)
    }

    fn encode(&self, resource: &mut Resource) -> (r: Result<(), EncodingError>) {
        WebmCodec::encode(self, resource)
    }
}

impl Codec for WebmCodec {

}

impl Decoder for WebpCodec {
    open spec fn decode_score_spec(&self, m: ResourceModel) -> usize {
        webp_codec::webp_decode_score(m)
    }

    open spec fn decode_spec(&self, m: ResourceModel) -> Result<ResourceModel, DecodeFailure> {
        Ok(webp_codec::webp_decode_model(m))
    }

    fn matches_decoder(&self, resource: &Resource) -> (score: usize) {
        WebpCodec::matches_decoder(self, resource)
    }

    fn decode(&self, resource: &mut Resource) -> (r: Result<(), DecodingError>) {
        WebpCodec::decode(self, resource)
    }
}

impl Encoder for WebpCodec {
    open spec fn encode_score_spec(&self, m: ResourceModel) -> usize {
        webp_codec::webp_encode_score(m)
    }

    open spec fn load_spec(
        &self,
        store: Seq<FileEntryModel>,
        base: Seq<u8>,
        m: ResourceModel,
    ) -> Result<ResourceModel, EncodeFailure> {
        Ok(m)
    }

    open spec fn encode_spec(&self, m: ResourceModel) -> Result<ResourceModel, EncodeFailure> {
        Ok(m)
    }

    fn matches_encoder(&self, resource: &Resource) -> (score: usize) {
        WebpCodec::matches_encoder(self, resource)
    }

    fn load_subresources(&self, store: &FileStore, base: &[u8], resource: &mut Resource) -> (r:
        Result<(), EncodingError>) {
        WebpCodec::load_subresources(self, store, base, resource)
    }

    fn encode(&self, resource: &mut Resource) -> (r: Result<(), EncodingError>) {
        WebpCodec::encode(self, resource)
    }
}

impl Codec for WebpCodec {

}

impl Decoder for XmlCodec {
    open spec fn decode_score_spec(&self, m: ResourceModel) -> usize {
        xml_codec::xml_decode_score(m)
    }

    open spec fn decode_spec(&self, m: ResourceModel) -> Result<ResourceModel, DecodeFailure> {
        Ok(xml_codec::xml_decode_model(m))
    }

    fn matches_decoder(&self, resource: &Resource) -> (score: usize) {
        XmlCodec::matches_decoder(self, resource)
    }

    fn decode(&self, resource: &mut Resource) -> (r: Result<(), DecodingError>) {
        XmlCodec::decode(self, resource)
    }
}

impl Encoder for XmlCodec {
    open spec fn encode_score_spec(&self, m: ResourceModel) -> usize {
        xml_codec::xml_encode_score(m)
    }

    open spec fn load_spec(
        &self,
        store: Seq<FileEntryModel>,
        base: Seq<u8>,
        m: ResourceModel,
    ) -> Result<ResourceModel, EncodeFailure> {
        Ok(m)
    }

    open spec fn encode_spec(&self, m: ResourceModel) -> Result<ResourceModel, EncodeFailure> {
        Ok(m)
    }

    fn matches_encoder(&self, resource: &Resource) -> (score: usize) {
        XmlCodec::matches_encoder(self, resource)
    }

    fn load_subresources(&self, store: &FileStore, base: &[u8], resource: &mut Resource) -> (r:
        Result<(), EncodingError>) {
        XmlCodec::load_subresources(self, store, base, resource)
    }

    fn encode(&self, resource: &mut Resource) -> (r: Result<(), EncodingError>) {
        XmlCodec::encode(self, resource)
    }
}

impl Codec for XmlCodec {

}

impl Decoder for RawCodec {
    open spec fn decode_score_spec(&self, m: ResourceModel) -> usize {
        raw_codec::raw_decode_score(m)
    }

    open spec fn decode_spec(&self, m: ResourceModel) -> Result<ResourceModel, DecodeFailure> {
        Ok(raw_codec::raw_decode_model(m))
    }

    fn matches_decoder(&self, resource: &Resource) -> (score: usize) {
        RawCodec::matches_decoder(self, resource)
    }

    fn decode(&self, resource: &mut Resource) -> (r: Result<(), DecodingError>) {
        RawCodec::decode(self, resource)
    }
}

impl Encoder for RawCodec {
    open spec fn encode_score_spec(&self, m: ResourceModel) -> usize {
        raw_codec::raw_encode_score(m)
    }

    open spec fn load_spec(
        &self,
        store: Seq<FileEntryModel>,
        base: Seq<u8>,
        m: ResourceModel,
    ) -> Result<ResourceModel, EncodeFailure> {
        Ok(m)
    }

    open spec fn encode_spec(&self, m: ResourceModel) -> Result<ResourceModel, EncodeFailure> {
        Ok(m)
    }

    fn matches_encoder(&self, resource: &Resource) -> (score: usize) {
        RawCodec::matches_encoder(self, resource)
    }

    fn load_subresources(&self, store: &FileStore, base: &[u8], resource: &mut Resource) -> (r:
        Result<(), EncodingError>) {
        RawCodec::load_subresources(self, store, base, resource)
    }

    fn encode(&self, resource: &mut Resource) -> (r: Result<(), EncodingError>) {
        RawCodec::encode(self, resource)
    }
}

impl Codec for RawCodec {

}

impl Decoder for OldEngineCodec {
    open spec fn decode_score_spec(&self, m: ResourceModel) -> usize {
        old_engine_codec::old_engine_decode_score(m)
    }

    open spec fn decode_spec(&self, m: ResourceModel) -> Result<ResourceModel, DecodeFailure> {
        old_engine_codec::old_engine_decode_model(m)
    }

    fn matches_decoder(&self, resource: &Resource) -> (score: usize) {
        OldEngineCodec::matches_decoder(self, resource)
    }

    fn decode(&self, resource: &mut Resource) -> (r: Result<(), DecodingError>) {
        OldEngineCodec::decode(self, resource)
    }
}

impl Encoder for OldEngineCodec {
    open spec fn encode_score_spec(&self, m: ResourceModel) -> usize {
        old_engine_codec::old_engine_encode_score(m)
    }

    open spec fn load_spec(
        &self,
        store: Seq<FileEntryModel>,
        base: Seq<u8>,
        m: ResourceModel,
    ) -> Result<ResourceModel, EncodeFailure> {
        Ok(m)
    }

    open spec fn encode_spec(&self, m: ResourceModel) -> Result<ResourceModel, EncodeFailure> {
        Ok(m)
    }

    fn matches_encoder(&self, resource: &Resource) -> (score: usize) {
        OldEngineCodec::matches_encoder(self, resource)
    }

    fn load_subresources(&self, store: &FileStore, base: &[u8], resource: &mut Resource) -> (r:
        Result<(), EncodingError>) {
        OldEngineCodec::load_subresources(self, store, base, resource)
    }

    fn encode(&self, resource: &mut Resource) -> (r: Result<(), EncodingError>) {
        OldEngineCodec::encode(self, resource)
    }
}

impl Codec for OldEngineCodec {

}

impl Decoder for OsaCodec {
    open spec fn decode_score_spec(&self, m: ResourceModel) -> usize {
        osa_codec::osa_decode_score(m)
    }

    open spec fn decode_spec(&self, m: ResourceModel) -> Result<ResourceModel, DecodeFailure> {
        osa_codec::osa_decode_model(m, spec_max_depth() as nat)
    }

    fn matches_decoder(&self, resource: &Resource) -> (score: usize) {
        OsaCodec::matches_decoder(self, resource)
    }

    fn decode(&self, resource: &mut Resource) -> (r: Result<(), DecodingError>) {
        osa_codec::osa_decode_at_depth(resource, MAX_NESTING_DEPTH)
    }
}

impl Encoder for OsaCodec {
    open spec fn encode_score_spec(&self, m: ResourceModel) -> usize {
        osa_codec::osa_encode_score(m)
    }

    open spec fn load_spec(
        &self,
        store: Seq<FileEntryModel>,
        base: Seq<u8>,
        m: ResourceModel,
    ) -> Result<ResourceModel, EncodeFailure> {
        osa_codec::osa_load_model(store, base, m, spec_max_depth() as nat)
    }

    open spec fn encode_spec(&self, m: ResourceModel) -> Result<ResourceModel, EncodeFailure> {
        osa_codec::osa_encode_model(m, spec_max_depth() as nat)
    }

    fn matches_encoder(&self, resource: &Resource) -> (score: usize) {
        OsaCodec::matches_encoder(self, resource)
    }

    fn load_subresources(&self, store: &FileStore, base: &[u8], resource: &mut Resource) -> (r:
        Result<(), EncodingError>) {
        osa_codec::osa_load_at_depth(store, base, resource, MAX_NESTING_DEPTH)
    }

    fn encode(&self, resource: &mut Resource) -> (r: Result<(), EncodingError>) {
        osa_codec::osa_encode_at_depth(resource, MAX_NESTING_DEPTH)
    }
}

impl Codec for OsaCodec {

}

impl Decoder for Vt7aCodec {
    open spec fn decode_score_spec(&self, m: ResourceModel) -> usize {
        vt7a_codec::vt7a_decode_score(m)
    }

    open spec fn decode_spec(&self, m: ResourceModel) -> Result<ResourceModel, DecodeFailure> {
        vt7a_codec::vt7a_decode_model(m, spec_max_depth() as nat)
    }

    fn matches_decoder(&self, resource: &Resource) -> (score: usize) {
        Vt7aCodec::matches_decoder(self, resource)
    }

    fn decode(&self, resource: &mut Resource) -> (r: Result<(), DecodingError>) {
        vt7a_codec::vt7a_decode_at_depth(resource, MAX_NESTING_DEPTH)
    }
}

impl Encoder for Vt7aCodec {
    open spec fn encode_score_spec(&self, m: ResourceModel) -> usize {
        vt7a_codec::vt7a_encode_score(m)
    }

    open spec fn load_spec(
        &self,
        store: Seq<FileEntryModel>,
        base: Seq<u8>,
        m: ResourceModel,
    ) -> Result<ResourceModel, EncodeFailure> {
        vt7a_codec::vt7a_load_model(store, base, m, spec_max_depth() as nat)
    }

    open spec fn encode_spec(&self, m: ResourceModel) -> Result<ResourceModel, EncodeFailure> {
        vt7a_codec::vt7a_encode_model(m, spec_max_depth() as nat)
    }

    fn matches_encoder(&self, resource: &Resource) -> (score: usize) {
        Vt7aCodec::matches_encoder(self, resource)
    }

    fn load_subresources(&self, store: &FileStore, base: &[u8], resource: &mut Resource) -> (r:
        Result<(), EncodingError>) {
        vt7a_codec::vt7a_load_at_depth(store, base, resource, MAX_NESTING_DEPTH)
    }

    fn encode(&self, resource: &mut Resource) -> (r: Result<(), EncodingError>) {
        vt7a_codec::vt7a_encode_at_depth(resource, MAX_NESTING_DEPTH)
    }
}

impl Codec for Vt7aCodec {

}

impl Decoder for SwordTextCodec {
    open spec fn decode_score_spec(&self, m: ResourceModel) -> usize {
        sword_text_codec::sword_decode_score(m)
    }

    open spec fn decode_spec(&self, m: ResourceModel) -> Result<ResourceModel, DecodeFailure> {
        sword_text_codec::sword_decode_model(m)
    }

    fn matches_decoder(&self, resource: &Resource) -> (score: usize) {
        SwordTextCodec::matches_decoder(self, resource)
    }

    fn decode(&self, resource: &mut Resource) -> (r: Result<(), DecodingError>) {
        sword_text_codec::sword_decode(resource)
    }
}

impl Encoder for SwordTextCodec {
    open spec fn encode_score_spec(&self, m: ResourceModel) -> usize {
        sword_text_codec::sword_encode_score(m)
    }

    open spec fn load_spec(
        &self,
        store: Seq<FileEntryModel>,
        base: Seq<u8>,
        m: ResourceModel,
    ) -> Result<ResourceModel, EncodeFailure> {
        Ok(m)
    }

    open spec fn encode_spec(&self, m: ResourceModel) -> Result<ResourceModel, EncodeFailure> {
        sword_text_codec::sword_encode_model(m)
    }

    fn matches_encoder(&self, resource: &Resource) -> (score: usize) {
        SwordTextCodec::matches_encoder(self, resource)
    }

    fn load_subresources(&self, store: &FileStore, base: &[u8], resource: &mut Resource) -> (r:
        Result<(), EncodingError>) {
        Ok(())
    }

    fn encode(&self, resource: &mut Resource) -> (r: Result<(), EncodingError>) {
        sword_text_codec::sword_encode(resource)
    }
}

impl Codec for SwordTextCodec {

}


/// Anything that does not carry a decoded manifest's content tag passes
/// through encoding unchanged: only the container encoders rebuild bytes,
/// and each of them demands the manifest tag.
pub proof fn lemma_leaf_encode_identity(c: ResourceModel, fuel: nat)
    requires
        fuel > 0,
        c.extension != Some(json_tag()),
    ensures
        encode_model(c, fuel) == Ok::<ResourceModel, EncodeFailure>(c),
{
    let scores = encode_scores(c);
    assert(scores[2] == encode_score_of(CodecId::Osa, c));
    assert(scores[4] == encode_score_of(CodecId::SwordText, c));
    assert(scores[7] == encode_score_of(CodecId::Vt7a, c));
    assert(scores[2] == 0 && scores[4] == 0 && scores[7] == 0);
    assert(scores[3] == 10);
    let ci = chosen_index(scores);
    if exists|i: int| is_first_max(scores, i) {
        let f = choose|i: int| is_first_max(scores, i);
        assert(is_first_max(scores, f));
        lemma_chosen_is_first_max(scores, f);
        assert(scores[3] <= scores[f]);
        assert(f != 2 && f != 4 && f != 7);
        assert(chosen_encoder(c) != CodecId::Osa && chosen_encoder(c) != CodecId::SwordText
            && chosen_encoder(c) != CodecId::Vt7a);
    } else {
        lemma_some_first_max(scores, 3);
        assert(false);
    }
}

/// Anything that does not carry a decoded manifest's content tag passes
/// through loading unchanged: only the archive loaders materialize
/// children, and each of them demands the manifest tag.
pub proof fn lemma_leaf_load_identity(
    store: Seq<FileEntryModel>,
    base: Seq<u8>,
    c: ResourceModel,
    fuel: nat,
)
    requires
        fuel > 0,
        c.extension != Some(json_tag()),
    ensures
        load_model(store, base, c, fuel) == Ok::<ResourceModel, EncodeFailure>(c),
{
    let scores = encode_scores(c);
    assert(scores[2] == encode_score_of(CodecId::Osa, c));
    assert(scores[7] == encode_score_of(CodecId::Vt7a, c));
    assert(scores[2] == 0 && scores[7] == 0);
    assert(scores[3] == 10);
    if exists|i: int| is_first_max(scores, i) {
        let f = choose|i: int| is_first_max(scores, i);
        assert(is_first_max(scores, f));
        lemma_chosen_is_first_max(scores, f);
        assert(scores[3] <= scores[f]);
        assert(f != 2 && f != 7);
        assert(chosen_encoder(c) != CodecId::Osa && chosen_encoder(c) != CodecId::Vt7a);
    } else {
        lemma_some_first_max(scores, 3);
        assert(false);
    }
}

/// Any positive score guarantees a first maximum exists.
proof fn lemma_some_first_max(scores: Seq<usize>, i: int)
    requires
        0 <= i < scores.len(),
        scores[i] > 0,
    ensures
        exists|k: int| is_first_max(scores, k),
    decreases usize::MAX - scores[i],
{
    if forall|j: int| 0 <= j < scores.len() ==> #[trigger] scores[j] <= scores[i] {
        first_max_exists(scores, i);
    } else {
        let j = choose|j: int| 0 <= j < scores.len() && !(scores[j] <= scores[i]);
        lemma_some_first_max(scores, j);
    }
}

/// A found child is a real index carrying the identifier.
pub proof fn lemma_find_child_range(children: Seq<ResourceModel>, id: u32, i: int)
    requires
        find_child(children, id, i) is Some,
    ensures
        i <= find_child(children, id, i)->Some_0 < children.len(),
        children[find_child(children, id, i)->Some_0].identifier == id,
    decreases children.len() - i,
{
    if !(i < 0 || i >= children.len()) && children[i].identifier != id {
        lemma_find_child_range(children, id, i + 1);
    }
}

/// Compressed-flag preservation, stored half: a record the manifest marks
/// uncompressed is written back verbatim, with a zero compressed-size field
/// in its directory record, and trivially decompresses to the same bytes.
pub proof fn lemma_uncompressed_record_stored_verbatim(
    items: Seq<vt7a_codec::Vt7aItemModel>,
    children: Seq<ResourceModel>,
    fmt: crate::compression::CompressionFormat,
    k: int,
    off: int,
)
    requires
        0 <= k < items.len(),
        !items[k].compressed,
        find_child(children, items[k].identifier, 0) is Some,
        vt7a_codec::vt7a_entries_model(items, children, fmt, k, off) is Ok,
    ensures
        ({
            let ci = find_child(children, items[k].identifier, 0)->Some_0;
            let dp = vt7a_codec::vt7a_entries_model(items, children, fmt, k, off)->Ok_0;
            &&& children[ci].data.len() <= dp.1.len()
            &&& dp.1.subrange(0, children[ci].data.len() as int) == children[ci].data
            &&& dp.0.len() >= 16
            &&& dp.0.subrange(12, 16) == vstd::bytes::spec_u32_to_le_bytes(0)
            &&& crate::compression::spec_decompress(
                dp.1.subrange(0, children[ci].data.len() as int),
                crate::compression::CompressionFormat::Stored,
            ) == Some(children[ci].data)
        }),
{
    lemma_find_child_range(children, items[k].identifier, 0);
    let ci = find_child(children, items[k].identifier, 0)->Some_0;
    let child = children[ci];
    let dp = vt7a_codec::vt7a_entries_model(items, children, fmt, k, off)->Ok_0;
    assert(crate::compression::spec_compress(
        child.data,
        crate::compression::CompressionFormat::Stored,
    ) == Some(child.data));
    vstd::bytes::lemma_auto_spec_u32_to_from_le_bytes();
    let e0 = vstd::bytes::spec_u32_to_le_bytes(child.identifier);
    let e1 = vstd::bytes::spec_u32_to_le_bytes(off as u32);
    let e2 = vstd::bytes::spec_u32_to_le_bytes(child.data.len() as u32);
    let e3 = vstd::bytes::spec_u32_to_le_bytes(0u32);
    let rest = vt7a_codec::vt7a_entries_model(items, children, fmt, k + 1, off + child.data.len())->Ok_0;
    assert(dp.0 == e0 + e1 + e2 + e3 + rest.0);
    assert(dp.1 == child.data + rest.1);
    assert(dp.1.subrange(0, child.data.len() as int) =~= child.data);
    assert(dp.0.subrange(12, 16) =~= e3);
}

} // verus!
