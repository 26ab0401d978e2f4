//! Code splitting: extraction of imported modules into separately
//! loadable chunk files.
//!
//! A chunk carries a generated name, a file path under a bucket folder
//! named after its file kind, and the module's transformed content. Import
//! references whose target became a chunk are replaced in assembled
//! content by a runtime chunk-load call. Name suffixes come from a random
//! generator; planning is deterministic in the drawn suffixes, and a
//! duplicate name is detected and reported as fatal.

use rand::Rng;

use vstd::prelude::*;

use crate::bytesutil::{slice_of, views};
use crate::scan::{FileKind, RefModel};

verus! {

/// Whether `b` is an ASCII letter or digit.
pub open spec fn is_alnum(b: u8) -> bool {
    (48 <= b <= 57) || (65 <= b <= 90) || (97 <= b <= 122)
}

/// Relies on rand's `thread_rng` sampled through the `Alphanumeric`
/// distribution, which yields uniformly random ASCII letters and digits;
/// nothing is assumed beyond the length and the alphabet.
#[verifier::external_body]
fn random_alphanumeric(len: usize) -> (r: Vec<u8>)
    ensures
        r@.len() == len,
        forall|i: int| 0 <= i < len ==> is_alnum(r@[i]),
{
    rand::thread_rng().sample_iter(&rand::distributions::Alphanumeric).take(len).collect()
}

/// Draws a random name of ASCII letters and digits, for chunk and scratch
/// file names.
pub fn generate_random_name(len: usize) -> (r: Vec<u8>)
    ensures
        r@.len() == len,
        forall|i: int| 0 <= i < len ==> is_alnum(r@[i]),
{
    random_alphanumeric(len)
}

/// The pieces of `c` cut every `size` bytes, in order; the last piece may
/// be shorter.
pub open spec fn spec_chunks(c: Seq<u8>, size: int) -> Seq<Seq<u8>>
    decreases c.len()
        when size >= 1
{
    if c.len() == 0 {
        Seq::empty()
    } else if c.len() <= size {
        seq![c]
    } else {
        seq![c.take(size)] + spec_chunks(c.skip(size), size)
    }
}

/// Cuts content into pieces of at most `chunk_size` bytes. Concatenating
/// the pieces in order gives back the content.
pub fn chunk_file_content(content: &Vec<u8>, chunk_size: usize) -> (r: Vec<Vec<u8>>)
    requires
        chunk_size >= 1,
    ensures
        views(r@) == spec_chunks(content@, chunk_size as int),
{
    let ghost c = content@;
    let mut out: Vec<Vec<u8>> = Vec::new();
    let mut pos: usize = 0;
    proof {
        assert(c.skip(0) =~= c);
        assert(views(out@) + spec_chunks(c.skip(0), chunk_size as int) =~= spec_chunks(
            c,
            chunk_size as int,
        ));
    }
    while pos < content.len()
        invariant
            0 <= pos <= c.len(),
            spec_chunks(c, chunk_size as int) == views(out@) + spec_chunks(
                c.skip(pos as int),
                chunk_size as int,
            ),
        decreases c.len() - pos,
    {
        let remaining = content.len() - pos;
        let step = if remaining < chunk_size {
            remaining
        } else {
            chunk_size
        };
        let piece = slice_of(content, pos, pos + step);
        let ghost prev = views(out@);
        let ghost rest = c.skip(pos as int);
        out.push(piece);
        proof {
            assert(views(out@) =~= prev.push(piece@));
            if rest.len() <= chunk_size {
                assert(piece@ =~= rest);
                assert(c.skip((pos + step) as int) =~= Seq::<u8>::empty());
                assert(spec_chunks(rest, chunk_size as int) =~= seq![rest]);
                assert(views(out@) + spec_chunks(c.skip((pos + step) as int), chunk_size as int)
                    =~= prev + spec_chunks(rest, chunk_size as int));
            } else {
                assert(piece@ =~= rest.take(chunk_size as int));
                assert(c.skip((pos + step) as int) =~= rest.skip(chunk_size as int));
                assert(views(out@) + spec_chunks(c.skip((pos + step) as int), chunk_size as int)
                    =~= prev + spec_chunks(rest, chunk_size as int));
            }
        }
        pos = pos + step;
    }
    proof {
        assert(c.skip(c.len() as int) =~= Seq::<u8>::empty());
        assert(views(out@) + spec_chunks(c.skip(c.len() as int), chunk_size as int) =~= views(
            out@,
        ));
    }
    out
}

/// The folder bucket and extension for a chunk of `kind`.
pub open spec fn kind_ext(kind: FileKind) -> Seq<u8> {
    match kind {
        FileKind::Js => seq![106u8, 115u8],
        FileKind::Css => seq![99u8, 115u8, 115u8],
        FileKind::Html => seq![104u8, 116u8, 109u8, 108u8],
        FileKind::Json => seq![106u8, 115u8, 111u8, 110u8],
    }
}

/// Builds the bucket and extension bytes for `kind`.
pub fn kind_ext_bytes(kind: FileKind) -> (r: Vec<u8>)
    ensures
        r@ == kind_ext(kind),
{
    let mut v: Vec<u8> = Vec::new();
    match kind {
        FileKind::Js => {
            v.push(106);
            v.push(115);
        },
        FileKind::Css => {
            v.push(99);
            v.push(115);
            v.push(115);
        },
        FileKind::Html => {
            v.push(104);
            v.push(116);
            v.push(109);
            v.push(108);
        },
        FileKind::Json => {
            v.push(106);
            v.push(115);
            v.push(111);
            v.push(110);
        },
    }
    proof {
        assert(v@ =~= kind_ext(kind));
    }
    v
}

/// The chunk name built from a drawn suffix and the target's kind:
/// `chunk_<suffix>.<ext>`.
pub open spec fn chunk_name(suffix: Seq<u8>, kind: FileKind) -> Seq<u8> {
    seq![99u8, 104u8, 117u8, 110u8, 107u8, 95u8] + suffix + seq![46u8] + kind_ext(kind)
}

/// Builds the chunk name for a drawn suffix and kind.
pub fn chunk_name_bytes(suffix: &Vec<u8>, kind: FileKind) -> (r: Vec<u8>)
    ensures
        r@ == chunk_name(suffix@, kind),
{
    let mut v: Vec<u8> = Vec::new();
    v.push(99);
    v.push(104);
    v.push(117);
    v.push(110);
    v.push(107);
    v.push(95);
    crate::bytesutil::append_bytes(&mut v, suffix);
    v.push(46);
    let ext = kind_ext_bytes(kind);
    crate::bytesutil::append_bytes(&mut v, &ext);
    proof {
        assert(v@ =~= chunk_name(suffix@, kind));
    }
    v
}

/// The path of a chunk file: the output directory, the kind's bucket
/// folder, and the chunk name.
pub open spec fn chunk_path(output_dir: Seq<u8>, kind: FileKind, name: Seq<u8>) -> Seq<u8> {
    crate::resolver::spec_join(crate::resolver::spec_join(output_dir, kind_ext(kind)), name)
}

/// Builds the path of a chunk file.
pub fn chunk_path_bytes(output_dir: &Vec<u8>, kind: FileKind, name: &Vec<u8>) -> (r: Vec<u8>)
    ensures
        r@ == chunk_path(output_dir@, kind, name@),
{
    let bucket = kind_ext_bytes(kind);
    let dir = crate::resolver::join_path(output_dir, &bucket);
    crate::resolver::join_path(&dir, name)
}

/// The chunk names assigned to a list of kinds from a list of drawn
/// suffixes, position by position.
pub open spec fn spec_names(kinds: Seq<FileKind>, suffixes: Seq<Seq<u8>>) -> Seq<Seq<u8>> {
    Seq::new(kinds.len(), |i: int| chunk_name(suffixes[i], kinds[i]))
}

/// Assigns a chunk name to each kind from the drawn suffixes. Reports
/// `None` exactly when two assigned names collide, which callers treat as
/// a build-fatal condition.
pub fn plan_chunk_names(kinds: &Vec<FileKind>, suffixes: &Vec<Vec<u8>>) -> (r: Option<
    Vec<Vec<u8>>,
>)
    requires
        kinds@.len() == suffixes@.len(),
    ensures
        match r {
            Some(names) => views(names@) == spec_names(kinds@, views(suffixes@)) && views(
                names@,
            ).no_duplicates(),
            None => !spec_names(kinds@, views(suffixes@)).no_duplicates(),
        },
{
    let ghost target = spec_names(kinds@, views(suffixes@));
    let mut names: Vec<Vec<u8>> = Vec::new();
    let mut i: usize = 0;
    proof {
        assert(views(names@) =~= target.take(0));
    }
    while i < kinds.len()
        invariant
            0 <= i <= kinds@.len(),
            views(names@) == target.take(i as int),
            views(names@).no_duplicates(),
        decreases kinds@.len() - i,
    {
        let name = chunk_name_bytes(&suffixes[i], kinds[i]);
        proof {
            assert(name@ == target[i as int]);
        }
        if crate::bytesutil::list_contains(&names, &name) {
            proof {
                let j = choose|j: int|
                    0 <= j < views(names@).len() && views(names@)[j] == name@;
                assert(target[j] == target[i as int]);
            }
            return None;
        }
        let ghost prev = views(names@);
        names.push(name);
        proof {
            assert(views(names@) =~= prev.push(target[i as int]));
            assert(views(names@) =~= target.take(i + 1));
            assert forall|j: int, k: int|
                0 <= j < k < views(names@).len() implies views(names@)[j] != views(
                names@,
            )[k] by {
                if k < prev.len() {
                    assert(prev[j] != prev[k]);
                } else {
                    assert(prev[j] == views(names@)[j]);
                    if prev[j] == name@ {
                        assert(prev.contains(name@));
                    }
                }
            }
        }
        i = i + 1;
    }
    proof {
        assert(target.take(target.len() as int) =~= target);
    }
    Some(names)
}

/// The text of a runtime chunk-load call for `name`: `loadChunk('<name>');`.
pub open spec fn loadchunk_text(name: Seq<u8>) -> Seq<u8> {
    seq![108u8, 111u8, 97u8, 100u8, 67u8, 104u8, 117u8, 110u8, 107u8, 40u8, 39u8] + name + seq![
        39u8,
        41u8,
        59u8,
    ]
}

/// Builds the chunk-load call text for `name`.
pub fn loadchunk_bytes(name: &Vec<u8>) -> (r: Vec<u8>)
    ensures
        r@ == loadchunk_text(name@),
{
    let mut v: Vec<u8> = Vec::new();
    v.push(108);
    v.push(111);
    v.push(97);
    v.push(100);
    v.push(67);
    v.push(104);
    v.push(117);
    v.push(110);
    v.push(107);
    v.push(40);
    v.push(39);
    crate::bytesutil::append_bytes(&mut v, name);
    v.push(39);
    v.push(41);
    v.push(59);
    proof {
        assert(v@ =~= loadchunk_text(name@));
    }
    v
}

/// Whether `refs` with `decisions` describe disjoint spans of `c`, in
/// order, each span after position `from`.
pub open spec fn spans_ok(c: Seq<u8>, refs: Seq<RefModel>, from: int) -> bool
    decreases refs.len(),
{
    if refs.len() == 0 {
        0 <= from <= c.len()
    } else {
        0 <= from <= refs.first().start && refs.first().start <= refs.first().end <= c.len()
            && spans_ok(c, refs.drop_first(), refs.first().end)
    }
}

/// Spans that are in order from `b` are in order from any earlier
/// position.
proof fn lemma_spans_weaken(c: Seq<u8>, refs: Seq<RefModel>, a: int, b: int)
    requires
        0 <= a <= b,
        spans_ok(c, refs, b),
    ensures
        spans_ok(c, refs, a),
{
}

/// The scanner's references are disjoint ordered spans of the content.
pub proof fn lemma_scan_spans(c: Seq<u8>, kind: FileKind, i: int)
    requires
        0 <= i <= c.len(),
    ensures
        spans_ok(c, crate::scan::spec_scan(c, kind, i), i),
    decreases c.len() - i,
{
    if i >= c.len() {
    } else if crate::scan::is_ref_at(c, kind, i) {
        crate::scan::lemma_ref_bounds(c, kind, i);
        let e = crate::scan::ref_end(c, kind, i);
        lemma_scan_spans(c, kind, e);
        let s = crate::scan::spec_scan(c, kind, i);
        assert(s.first().start == i && s.first().end == e);
        assert(s.drop_first() =~= crate::scan::spec_scan(c, kind, e));
    } else {
        lemma_scan_spans(c, kind, i + 1);
        lemma_spans_weaken(c, crate::scan::spec_scan(c, kind, i + 1), i, i + 1);
    }
}

/// The content with each reference span either kept or replaced by a
/// chunk-load call, as the decisions say, copying from position `from`.
pub open spec fn spec_rewrite(
    c: Seq<u8>,
    refs: Seq<RefModel>,
    decisions: Seq<Option<Seq<u8>>>,
    from: int,
) -> Seq<u8>
    decreases refs.len(),
{
    if refs.len() == 0 {
        c.subrange(from, c.len() as int)
    } else {
        let r0 = refs.first();
        c.subrange(from, r0.start) + (match decisions.first() {
            Some(name) => loadchunk_text(name),
            None => c.subrange(r0.start, r0.end),
        }) + spec_rewrite(c, refs.drop_first(), decisions.drop_first(), r0.end)
    }
}

/// Rewrites content: the `i`-th scanned reference is replaced by a
/// chunk-load call when `decisions[i]` names a chunk, and kept verbatim
/// otherwise.
pub fn rewrite_content(
    content: &Vec<u8>,
    refs: &Vec<crate::scan::ImportRef>,
    decisions: &Vec<Option<Vec<u8>>>,
) -> (r: Vec<u8>)
    requires
        decisions@.len() == refs@.len(),
        spans_ok(content@, crate::scan::ref_models(refs@), 0),
    ensures
        r@ == spec_rewrite(
            content@,
            crate::scan::ref_models(refs@),
            decisions@.map_values(|d: Option<Vec<u8>>| crate::bytesutil::opt_view(d)),
            0,
        ),
{
    let ghost c = content@;
    let ghost refsv = crate::scan::ref_models(refs@);
    let ghost dsv = decisions@.map_values(|d: Option<Vec<u8>>| crate::bytesutil::opt_view(d));
    let mut out: Vec<u8> = Vec::new();
    let mut j: usize = 0;
    let mut pos: usize = 0;
    proof {
        assert(refsv.skip(0) =~= refsv);
        assert(dsv.skip(0) =~= dsv);
        assert(out@ + spec_rewrite(c, refsv.skip(0), dsv.skip(0), 0) =~= spec_rewrite(
            c,
            refsv,
            dsv,
            0,
        ));
    }
    while j < refs.len()
        invariant
            0 <= j <= refsv.len(),
            spans_ok(c, refsv.skip(j as int), pos as int),
            spec_rewrite(c, refsv, dsv, 0) == out@ + spec_rewrite(
                c,
                refsv.skip(j as int),
                dsv.skip(j as int),
                pos as int,
            ),
        decreases refsv.len() - j,
    {
        proof {
            assert(refsv.skip(j as int).first() == refsv[j as int]);
            assert(refsv.skip(j as int).drop_first() =~= refsv.skip(j + 1));
            assert(dsv.skip(j as int).first() == dsv[j as int]);
            assert(dsv.skip(j as int).drop_first() =~= dsv.skip(j + 1));
        }
        let start = refs[j].start;
        let end = refs[j].end;
        let ghost mid = out@;
        let head = slice_of(content, pos, start);
        crate::bytesutil::append_bytes(&mut out, &head);
        match &decisions[j] {
            Some(name) => {
                let call = loadchunk_bytes(name);
                crate::bytesutil::append_bytes(&mut out, &call);
            },
            None => {
                let span = slice_of(content, start, end);
                crate::bytesutil::append_bytes(&mut out, &span);
            },
        }
        proof {
            assert(out@ =~= mid + (c.subrange(pos as int, start as int) + (match dsv[j as int] {
                Some(name) => loadchunk_text(name),
                None => c.subrange(start as int, end as int),
            })));
            assert(out@ + spec_rewrite(c, refsv.skip(j + 1), dsv.skip(j + 1), end as int) =~= mid
                + spec_rewrite(c, refsv.skip(j as int), dsv.skip(j as int), pos as int));
        }
        pos = end;
        j = j + 1;
    }
    proof {
        assert(refsv.skip(refsv.len() as int) =~= Seq::<RefModel>::empty());
        assert(dsv.skip(dsv.len() as int) =~= Seq::<Option<Seq<u8>>>::empty());
        assert(spec_rewrite(c, refsv.skip(refsv.len() as int), dsv.skip(dsv.len() as int),
            pos as int) == c.subrange(pos as int, c.len() as int));
    }
    let tail_part = slice_of(content, pos, content.len());
    crate::bytesutil::append_bytes(&mut out, &tail_part);
    out
}

/// One chunk of the final output: its generated name, its file path, and
/// the content written to it.
pub struct Chunk {
    pub name: Vec<u8>,
    pub path: Vec<u8>,
    pub content: Vec<u8>,
}

/// The mathematical view of a chunk.
#[verifier::ext_equal]
pub struct ChunkModel {
    pub name: Seq<u8>,
    pub path: Seq<u8>,
    pub content: Seq<u8>,
}

impl Chunk {
    /// The chunk's mathematical view.
    pub open spec fn model(self) -> ChunkModel {
        ChunkModel { name: self.name@, path: self.path@, content: self.content@ }
    }
}

/// The views of a list of chunks.
pub open spec fn chunk_models(s: Seq<Chunk>) -> Seq<ChunkModel> {
    s.map_values(|c: Chunk| c.model())
}

/// One manifest line per chunk, in creation order: `<name>: <path>` and a
/// newline.
pub open spec fn manifest_text(chunks: Seq<ChunkModel>) -> Seq<u8>
    decreases chunks.len(),
{
    if chunks.len() == 0 {
        Seq::empty()
    } else {
        manifest_text(chunks.drop_last()) + chunks.last().name + seq![58u8, 32u8]
            + chunks.last().path + seq![10u8]
    }
}

/// Renders the chunk manifest, one `name: path` line per chunk in
/// creation order.
pub fn write_manifest(chunks: &Vec<Chunk>) -> (r: Vec<u8>)
    ensures
        r@ == manifest_text(chunk_models(chunks@)),
{
    let ghost cm = chunk_models(chunks@);
    let mut out: Vec<u8> = Vec::new();
    let mut i: usize = 0;
    proof {
        assert(cm.take(0) =~= Seq::<ChunkModel>::empty());
        assert(out@ =~= manifest_text(cm.take(0)));
    }
    while i < chunks.len()
        invariant
            0 <= i <= cm.len(),
            out@ == manifest_text(cm.take(i as int)),
        decreases cm.len() - i,
    {
        proof {
            assert(cm.take(i + 1).drop_last() =~= cm.take(i as int));
            assert(cm.take(i + 1).last() == cm[i as int]);
        }
        crate::bytesutil::append_bytes(&mut out, &chunks[i].name);
        out.push(58);
        out.push(32);
        crate::bytesutil::append_bytes(&mut out, &chunks[i].path);
        out.push(10);
        proof {
            assert(out@ =~= manifest_text(cm.take(i + 1)));
        }
        i = i + 1;
    }
    proof {
        assert(cm.take(cm.len() as int) =~= cm);
    }
    out
}

} // verus!
