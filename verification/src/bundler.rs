//! The bundling engine: module discovery, the at-most-once transform
//! schedule, assembly of the bundle, code splitting and source-map
//! emission, over an explicit workspace snapshot.
//!
//! The engine is the single-worker execution path of the design: every
//! accumulation is keyed on first-discovery order, so the output is a
//! function of the workspace, the configuration, the plugin set and the
//! drawn chunk-name suffixes, and nothing else.

use vstd::prelude::*;

use crate::bytesutil::{clone_bytes, clone_list, find_in, index_of, list_contains, opt_view, views};
use crate::cache::BuildCache;
use crate::config::Config;
use crate::graph::{Graph, NodeModel};
use crate::plugin::{chain_load, chain_resolve, Plugin, PluginManager};
use crate::resolver::{resolve_path, spec_resolve};
use crate::scan::{ref_models, scan_imports, spec_kind_of, spec_scan, FileKind, ImportRef, RefModel};
use crate::sourcemap::{sourcemap_json, GenModel, SourceMapGenerator};
use crate::splitter::{
    chunk_models, chunk_path, chunk_path_bytes, manifest_text, plan_chunk_names, spec_names,
    spec_rewrite, Chunk, ChunkModel,
};

verus! {

/// One file of the workspace handed to a build: its workspace-relative
/// path and its raw content.
pub struct SourceFile {
    pub path: Vec<u8>,
    pub content: Vec<u8>,
}

/// The mathematical view of a workspace file.
#[verifier::ext_equal]
pub struct FileModel {
    pub path: Seq<u8>,
    pub content: Seq<u8>,
}

impl SourceFile {
    /// The file's mathematical view.
    pub open spec fn model(self) -> FileModel {
        FileModel { path: self.path@, content: self.content@ }
    }
}

/// The views of a workspace.
pub open spec fn file_models(s: Seq<SourceFile>) -> Seq<FileModel> {
    s.map_values(|f: SourceFile| f.model())
}

/// The paths of a workspace, in order.
pub open spec fn ws_paths(ws: Seq<FileModel>) -> Seq<Seq<u8>> {
    ws.map_values(|f: FileModel| f.path)
}

/// Workspace validity: it is a filesystem snapshot, so paths are unique.
pub open spec fn wf_workspace(ws: Seq<FileModel>) -> bool {
    ws_paths(ws).no_duplicates()
}

/// The raw content stored under `path`, if the workspace holds the file.
pub open spec fn ws_lookup(ws: Seq<FileModel>, path: Seq<u8>) -> Option<Seq<u8>>
    decreases ws.len(),
{
    if ws.len() == 0 {
        None
    } else if ws.first().path == path {
        Some(ws.first().content)
    } else {
        ws_lookup(ws.drop_first(), path)
    }
}

/// The file kind a module is treated as: its extension's kind, and
/// JavaScript for unrecognized extensions.
pub open spec fn module_kind(path: Seq<u8>) -> FileKind {
    match spec_kind_of(path) {
        Some(k) => k,
        None => FileKind::Js,
    }
}

/// Classifies a module path, defaulting to JavaScript.
pub fn module_kind_of(path: &Vec<u8>) -> (k: FileKind)
    ensures
        k == module_kind(path@),
{
    match crate::scan::kind_of_path(path) {
        Some(k) => k,
        None => FileKind::Js,
    }
}

/// The content a module contributes to the build: the registered
/// load-time transform's replacement, or the raw content unchanged.
pub open spec fn transformed_of<P: Plugin>(ps: Seq<P>, path: Seq<u8>, raw: Seq<u8>) -> Seq<u8> {
    match chain_load(ps, path, raw) {
        Some(c) => c,
        None => raw,
    }
}

/// The transformed content of the module at `path`, when the workspace
/// holds it.
pub open spec fn content_of<P: Plugin>(ws: Seq<FileModel>, ps: Seq<P>, path: Seq<u8>) -> Seq<u8> {
    transformed_of(ps, path, ws_lookup(ws, path)->Some_0)
}

/// The import references of the module at `path`, scanned from its
/// transformed content with the syntax of its kind.
pub open spec fn refs_of<P: Plugin>(ws: Seq<FileModel>, ps: Seq<P>, path: Seq<u8>) -> Seq<
    RefModel,
> {
    spec_scan(content_of(ws, ps, path), module_kind(path), 0)
}

/// What each import reference of the module resolves to: the resolved
/// identity, or `None` for a reference whose resolution failed and whose
/// edge is dropped.
pub open spec fn resolved_of<P: Plugin>(
    ws: Seq<FileModel>,
    ps: Seq<P>,
    cfg: Config,
    path: Seq<u8>,
) -> Seq<Option<Seq<u8>>> {
    Seq::new(
        refs_of(ws, ps, path).len(),
        |i: int|
            {
                match spec_resolve(
                    chain_resolve(ps, refs_of(ws, ps, path)[i].target),
                    path,
                    refs_of(ws, ps, path)[i].target,
                    cfg.search_path@,
                    views(cfg.fallback_extensions@),
                    ws_paths(ws),
                ) {
                    Ok(p) => Some(p),
                    Err(_) => None,
                }
            },
    )
}

/// The `Some` values of a list, in order.
pub open spec fn somes(s: Seq<Option<Seq<u8>>>) -> Seq<Seq<u8>>
    decreases s.len(),
{
    if s.len() == 0 {
        Seq::empty()
    } else {
        somes(s.drop_last()) + (match s.last() {
            Some(p) => seq![p],
            None => Seq::empty(),
        })
    }
}

/// The number of `None` values of a list.
pub open spec fn nones(s: Seq<Option<Seq<u8>>>) -> nat
    decreases s.len(),
{
    if s.len() == 0 {
        0
    } else {
        nones(s.drop_last()) + (if s.last() is None {
            1nat
        } else {
            0nat
        })
    }
}

/// The outgoing edges of the module at `path`: its successfully resolved
/// import targets, in reference order.
pub open spec fn adj<P: Plugin>(
    ws: Seq<FileModel>,
    ps: Seq<P>,
    cfg: Config,
    path: Seq<u8>,
) -> Seq<Seq<u8>> {
    somes(resolved_of(ws, ps, cfg, path))
}

/// The number of edges of the module at `path` dropped for resolution
/// failures.
pub open spec fn dropped_of<P: Plugin>(
    ws: Seq<FileModel>,
    ps: Seq<P>,
    cfg: Config,
    path: Seq<u8>,
) -> nat {
    nones(resolved_of(ws, ps, cfg, path))
}

/// The references of one analyzed module and, for each, its resolved
/// target when resolution succeeded.
pub struct FileRefs {
    pub refs: Vec<ImportRef>,
    pub resolved: Vec<Option<Vec<u8>>>,
}

/// The index of the first workspace file at `path`.
fn find_file(files: &Vec<SourceFile>, path: &Vec<u8>) -> (r: Option<usize>)
    ensures
        match r {
            Some(i) => 0 <= i < files@.len() && ws_lookup(file_models(files@), path@) == Some(
                files@[i as int].content@,
            ),
            None => ws_lookup(file_models(files@), path@) is None,
        },
{
    let ghost ws = file_models(files@);
    let mut i: usize = 0;
    proof {
        assert(ws.skip(0) =~= ws);
    }
    while i < files.len()
        invariant
            0 <= i <= ws.len(),
            ws_lookup(ws, path@) == ws_lookup(ws.skip(i as int), path@),
        decreases ws.len() - i,
    {
        proof {
            assert(ws.skip(i as int).first() == ws[i as int]);
            assert(ws.skip(i as int).drop_first() =~= ws.skip(i + 1));
        }
        if crate::bytesutil::bytes_eq(&files[i].path, path) {
            return Some(i);
        }
        i = i + 1;
    }
    proof {
        assert(ws.skip(ws.len() as int) =~= Seq::<FileModel>::empty());
    }
    None
}

/// Collects the workspace's paths.
fn collect_paths(files: &Vec<SourceFile>) -> (r: Vec<Vec<u8>>)
    ensures
        views(r@) == ws_paths(file_models(files@)),
{
    let ghost ws = file_models(files@);
    let mut out: Vec<Vec<u8>> = Vec::new();
    let mut i: usize = 0;
    proof {
        assert(views(out@) =~= ws_paths(ws).take(0));
    }
    while i < files.len()
        invariant
            0 <= i <= ws.len(),
            views(out@) == ws_paths(ws).take(i as int),
        decreases ws.len() - i,
    {
        let ghost prev = views(out@);
        out.push(clone_bytes(&files[i].path));
        proof {
            assert(views(out@) =~= prev.push(ws_paths(ws)[i as int]));
            assert(views(out@) =~= ws_paths(ws).take(i + 1));
        }
        i = i + 1;
    }
    proof {
        assert(ws_paths(ws).take(ws_paths(ws).len() as int) =~= ws_paths(ws));
    }
    out
}

/// Applies the load-time transform chain to a module's raw content.
fn transform_content<P: Plugin>(
    plugins: &PluginManager<P>,
    path: &Vec<u8>,
    raw: &Vec<u8>,
) -> (r: Vec<u8>)
    ensures
        r@ == transformed_of(plugins.model(), path@, raw@),
{
    match plugins.load(path, raw) {
        Some(c) => c,
        None => clone_bytes(raw),
    }
}

/// Scans a module's transformed content and resolves each reference.
/// `resolved` pairs with `refs` position by position; a failed resolution
/// leaves `None` and the edge is dropped.
fn analyze_module<P: Plugin>(
    plugins: &PluginManager<P>,
    cfg: &Config,
    all_paths: &Vec<Vec<u8>>,
    path: &Vec<u8>,
    content: &Vec<u8>,
) -> (r: FileRefs)
    ensures
        ref_models(r.refs@) == spec_scan(content@, module_kind(path@), 0),
        r.resolved@.len() == r.refs@.len(),
        forall|i: int|
            0 <= i < r.resolved@.len() ==> opt_view(#[trigger] r.resolved@[i]) == {
                match spec_resolve(
                    chain_resolve(plugins.model(), ref_models(r.refs@)[i].target),
                    path@,
                    ref_models(r.refs@)[i].target,
                    cfg.search_path@,
                    views(cfg.fallback_extensions@),
                    views(all_paths@),
                ) {
                    Ok(p) => Some(p),
                    Err(_) => None,
                }
            },
{
    let kind = module_kind_of(path);
    let refs = scan_imports(content, kind);
    let mut resolved: Vec<Option<Vec<u8>>> = Vec::new();
    let mut i: usize = 0;
    while i < refs.len()
        invariant
            0 <= i <= refs@.len(),
            ref_models(refs@) == spec_scan(content@, module_kind(path@), 0),
            resolved@.len() == i,
            forall|j: int|
                0 <= j < i ==> opt_view(#[trigger] resolved@[j]) == {
                    match spec_resolve(
                        chain_resolve(plugins.model(), ref_models(refs@)[j].target),
                        path@,
                        ref_models(refs@)[j].target,
                        cfg.search_path@,
                        views(cfg.fallback_extensions@),
                        views(all_paths@),
                    ) {
                        Ok(p) => Some(p),
                        Err(_) => None,
                    }
                },
        decreases refs@.len() - i,
    {
        let target = resolve_path(
            path,
            &refs[i].target,
            plugins,
            &cfg.search_path,
            &cfg.fallback_extensions,
            all_paths,
        );
        match target {
            Ok(p) => {
                resolved.push(Some(p));
            },
            Err(_) => {
                resolved.push(None);
            },
        }
        i = i + 1;
    }
    FileRefs { refs, resolved }
}

/// The scheduling weight a file contributes while undiscovered: one for
/// its own visit plus one per outgoing edge it will enqueue.
pub open spec fn file_weight<P: Plugin>(
    ws: Seq<FileModel>,
    ps: Seq<P>,
    cfg: Config,
    f: FileModel,
    order: Seq<Seq<u8>>,
) -> nat {
    if order.contains(f.path) {
        0
    } else {
        1 + adj(ws, ps, cfg, f.path).len()
    }
}

/// The total weight of the files of `ws_iter` not yet discovered.
pub open spec fn undisc_sum<P: Plugin>(
    ws_iter: Seq<FileModel>,
    ws: Seq<FileModel>,
    ps: Seq<P>,
    cfg: Config,
    order: Seq<Seq<u8>>,
) -> nat
    decreases ws_iter.len(),
{
    if ws_iter.len() == 0 {
        0
    } else {
        undisc_sum(ws_iter.drop_last(), ws, ps, cfg, order) + file_weight(
            ws,
            ps,
            cfg,
            ws_iter.last(),
            order,
        )
    }
}

/// Discovering an identity carried by no file leaves every weight as it
/// was.
proof fn lemma_undisc_same<P: Plugin>(
    ws_iter: Seq<FileModel>,
    ws: Seq<FileModel>,
    ps: Seq<P>,
    cfg: Config,
    order: Seq<Seq<u8>>,
    h: Seq<u8>,
)
    requires
        forall|i: int| 0 <= i < ws_iter.len() ==> ws_iter[i].path != h,
    ensures
        undisc_sum(ws_iter, ws, ps, cfg, order.push(h)) == undisc_sum(ws_iter, ws, ps, cfg, order),
    decreases ws_iter.len(),
{
    if ws_iter.len() == 0 {
    } else {
        lemma_undisc_same(ws_iter.drop_last(), ws, ps, cfg, order, h);
        let e = ws_iter.last();
        assert(ws_iter[ws_iter.len() - 1] == e);
        assert(e.path != h);
        if order.push(h).contains(e.path) {
            let j = choose|j: int| 0 <= j < order.push(h).len() && order.push(h)[j] == e.path;
            assert(j < order.len());
            assert(order[j] == e.path);
            assert(order.contains(e.path));
        }
        if order.contains(e.path) {
            let j = choose|j: int| 0 <= j < order.len() && order[j] == e.path;
            assert(order.push(h)[j] == e.path);
            assert(order.push(h).contains(e.path));
        }
    }
}

/// Discovering the identity of one existing, undiscovered file lowers
/// the total weight by exactly that file's weight.
proof fn lemma_undisc_push<P: Plugin>(
    ws_iter: Seq<FileModel>,
    ws: Seq<FileModel>,
    ps: Seq<P>,
    cfg: Config,
    order: Seq<Seq<u8>>,
    h: Seq<u8>,
)
    requires
        ws_paths(ws_iter).no_duplicates(),
        exists|i: int| 0 <= i < ws_iter.len() && ws_iter[i].path == h,
        !order.contains(h),
    ensures
        undisc_sum(ws_iter, ws, ps, cfg, order.push(h)) + 1 + adj(ws, ps, cfg, h).len()
            == undisc_sum(ws_iter, ws, ps, cfg, order),
    decreases ws_iter.len(),
{
    let e = ws_iter.last();
    assert(ws_iter[ws_iter.len() - 1] == e);
    if e.path == h {
        assert forall|i: int| 0 <= i < ws_iter.drop_last().len() implies ws_iter.drop_last()[i].path
            != h by {
            assert(ws_paths(ws_iter)[i] == ws_iter[i].path);
            assert(ws_paths(ws_iter)[ws_iter.len() - 1] == h);
            assert(ws_iter.drop_last()[i] == ws_iter[i]);
        }
        lemma_undisc_same(ws_iter.drop_last(), ws, ps, cfg, order, h);
        assert(order.push(h)[order.len() as int] == h);
        assert(order.push(h).contains(h));
        assert(file_weight(ws, ps, cfg, e, order.push(h)) == 0);
        assert(file_weight(ws, ps, cfg, e, order) == 1 + adj(ws, ps, cfg, h).len());
    } else {
        let i = choose|i: int| 0 <= i < ws_iter.len() && ws_iter[i].path == h;
        assert(i < ws_iter.len() - 1);
        assert(ws_iter.drop_last()[i] == ws_iter[i]);
        assert(ws_paths(ws_iter.drop_last()) =~= ws_paths(ws_iter).drop_last());
        lemma_undisc_push(ws_iter.drop_last(), ws, ps, cfg, order, h);
        if order.push(h).contains(e.path) {
            let j = choose|j: int| 0 <= j < order.push(h).len() && order.push(h)[j] == e.path;
            assert(j < order.len());
            assert(order.contains(e.path));
        }
        if order.contains(e.path) {
            let j = choose|j: int| 0 <= j < order.len() && order[j] == e.path;
            assert(order.push(h)[j] == e.path);
        }
        assert(file_weight(ws, ps, cfg, e, order.push(h)) == file_weight(ws, ps, cfg, e, order));
    }
}

/// Breadth-first module discovery with explicit fuel: pop the head of
/// the queue; skip it when already discovered; fail when the workspace
/// has no such file; otherwise discover it and enqueue its edges. With
/// enough fuel the queue always drains before the fuel does.
pub open spec fn bfs_n<P: Plugin>(
    ws: Seq<FileModel>,
    ps: Seq<P>,
    cfg: Config,
    queue: Seq<Seq<u8>>,
    order: Seq<Seq<u8>>,
    fuel: nat,
) -> Result<Seq<Seq<u8>>, Seq<u8>>
    decreases fuel,
{
    if queue.len() == 0 || fuel == 0 {
        Ok(order)
    } else {
        let h = queue.first();
        let rest = queue.drop_first();
        if order.contains(h) {
            bfs_n(ws, ps, cfg, rest, order, (fuel - 1) as nat)
        } else if ws_lookup(ws, h) is None {
            Err(h)
        } else {
            bfs_n(
                ws,
                ps,
                cfg,
                rest + adj(ws, ps, cfg, h),
                order.push(h),
                (fuel - 1) as nat,
            )
        }
    }
}

/// The discovery order of a build: breadth-first from the entry module,
/// with fuel that provably suffices to drain the queue.
pub open spec fn discovery<P: Plugin>(ws: Seq<FileModel>, ps: Seq<P>, cfg: Config) -> Result<
    Seq<Seq<u8>>,
    Seq<u8>,
> {
    bfs_n(
        ws,
        ps,
        cfg,
        seq![cfg.entry_file@],
        Seq::empty(),
        (1 + undisc_sum(ws, ws, ps, cfg, Seq::<Seq<u8>>::empty())) as nat,
    )
}

/// A successful discovery lists each module once, and only modules the
/// workspace holds.
pub proof fn lemma_bfs_props<P: Plugin>(
    ws: Seq<FileModel>,
    ps: Seq<P>,
    cfg: Config,
    queue: Seq<Seq<u8>>,
    order: Seq<Seq<u8>>,
    fuel: nat,
)
    requires
        order.no_duplicates(),
        forall|p: Seq<u8>| #[trigger] order.contains(p) ==> ws_lookup(ws, p) is Some,
    ensures
        match bfs_n(ws, ps, cfg, queue, order, fuel) {
            Ok(o) => o.no_duplicates() && forall|p: Seq<u8>| #[trigger]
                o.contains(p) ==> ws_lookup(ws, p) is Some,
            Err(_) => true,
        },
    decreases fuel,
{
    if queue.len() == 0 || fuel == 0 {
    } else {
        let h = queue.first();
        let rest = queue.drop_first();
        if order.contains(h) {
            lemma_bfs_props(ws, ps, cfg, rest, order, (fuel - 1) as nat);
        } else if ws_lookup(ws, h) is None {
        } else {
            let order2 = order.push(h);
            assert forall|j: int, k: int| 0 <= j < k < order2.len() implies order2[j] != order2[k] by {
                if k < order.len() {
                } else {
                    assert(order2[j] == order[j]);
                    if order[j] == h {
                        assert(order.contains(h));
                    }
                }
            }
            assert forall|p: Seq<u8>| #[trigger] order2.contains(p) implies ws_lookup(ws, p)
                is Some by {
                let j = choose|j: int| 0 <= j < order2.len() && order2[j] == p;
                if j < order.len() {
                    assert(order[j] == p);
                    assert(order.contains(p));
                } else {
                    assert(p == h);
                }
            }
            lemma_bfs_props(ws, ps, cfg, rest + adj(ws, ps, cfg, h), order2, (fuel - 1) as nat);
        }
    }
}

/// The discovered modules of one build: their identities in discovery
/// order and, in the same order, their transformed contents.
pub struct Discovered {
    pub paths: Vec<Vec<u8>>,
    pub contents: Vec<Vec<u8>>,
}

/// Discovers every module reachable from the entry: reads each newly
/// referenced module from the workspace, transforms it once, scans it,
/// resolves its references and enqueues the targets not yet discovered.
/// Fails with the missing identity when a referenced module is not in
/// the workspace. Terminates on cyclic imports: an identity already
/// discovered is never re-enqueued.
#[verifier::rlimit(100)]
#[verifier::spinoff_prover]
fn discover<P: Plugin>(
    files: &Vec<SourceFile>,
    plugins: &PluginManager<P>,
    cfg: &Config,
) -> (r: Result<Discovered, Vec<u8>>)
    requires
        wf_workspace(file_models(files@)),
    ensures
        match r {
            Ok(d) => {
                &&& discovery(file_models(files@), plugins.model(), *cfg) == Ok::<_, Seq<u8>>(
                    views(d.paths@),
                )
                &&& d.contents@.len() == d.paths@.len()
                &&& forall|i: int|
                    0 <= i < d.paths@.len() ==> #[trigger] d.contents@[i]@ == content_of(
                        file_models(files@),
                        plugins.model(),
                        views(d.paths@)[i],
                    )
                &&& views(d.paths@).no_duplicates()
                &&& forall|i: int|
                    0 <= i < d.paths@.len() ==> ws_lookup(
                        file_models(files@),
                        #[trigger] views(d.paths@)[i],
                    ) is Some
            },
            Err(p) => discovery(file_models(files@), plugins.model(), *cfg) == Err::<
                Seq<Seq<u8>>,
                _,
            >(p@),
        },
{
    let ghost ws = file_models(files@);
    let ghost ps = plugins.model();
    let all_paths = collect_paths(files);
    let mut queue: Vec<Vec<u8>> = Vec::new();
    queue.push(clone_bytes(&cfg.entry_file));
    let mut order: Vec<Vec<u8>> = Vec::new();
    let mut contents: Vec<Vec<u8>> = Vec::new();
    let ghost mut fuel: nat = (1 + undisc_sum(ws, ws, ps, *cfg, Seq::<Seq<u8>>::empty())) as nat;
    proof {
        assert(views(queue@) =~= seq![cfg.entry_file@]);
        assert(views(order@) =~= Seq::<Seq<u8>>::empty());
        assert(discovery(ws, ps, *cfg) == bfs_n(ws, ps, *cfg, views(queue@), views(order@), fuel));
    }
    while queue.len() > 0
        invariant
            wf_workspace(ws),
            views(all_paths@) == ws_paths(ws),
            discovery(ws, ps, *cfg) == bfs_n(ws, ps, *cfg, views(queue@), views(order@), fuel),
            fuel >= views(queue@).len() + undisc_sum(ws, ws, ps, *cfg, views(order@)),
            views(order@).no_duplicates(),
            contents@.len() == order@.len(),
            forall|i: int|
                0 <= i < order@.len() ==> #[trigger] contents@[i]@ == content_of(
                    ws,
                    ps,
                    views(order@)[i],
                ),
            forall|i: int|
                0 <= i < order@.len() ==> ws_lookup(ws, #[trigger] views(order@)[i]) is Some,
        decreases fuel,
    {
        let ghost preq = views(queue@);
        let ghost preo = views(order@);
        let h = queue.remove(0);
        proof {
            assert(h@ == preq.first());
            assert forall|k: int| 0 <= k < views(queue@).len() implies #[trigger] views(queue@)[k]
                == preq.drop_first()[k] by {
                assert(queue@[k] == queue@[k]);
            }
            assert(views(queue@) =~= preq.drop_first());
            assert(fuel >= 1);
        }
        let already = list_contains(&order, &h);
        if already {
            proof {
                fuel = (fuel - 1) as nat;
            }
        } else {
            let found = find_file(files, &h);
            match found {
                Some(idx) => {
                    let transformed = transform_content(plugins, &h, &files[idx].content);
                    proof {
                        assert(transformed@ == content_of(ws, ps, h@));
                    }
                    let fr = analyze_module(plugins, cfg, &all_paths, &h, &transformed);
                    proof {
                        assert(ref_models(fr.refs@) == refs_of(ws, ps, h@));
                        assert(fr.resolved@.map_values(|d: Option<Vec<u8>>| opt_view(d))
                            =~= resolved_of(ws, ps, *cfg, h@));
                    }
                    let ghost resolvedv = resolved_of(ws, ps, *cfg, h@);
                    let mut targets: Vec<Vec<u8>> = Vec::new();
                    let mut k: usize = 0;
                    proof {
                        assert(resolvedv.take(0) =~= Seq::<Option<Seq<u8>>>::empty());
                        assert(views(targets@) =~= somes(resolvedv.take(0)));
                    }
                    while k < fr.resolved.len()
                        invariant
                            0 <= k <= resolvedv.len(),
                            resolvedv == fr.resolved@.map_values(|d: Option<Vec<u8>>| opt_view(d)),
                            views(targets@) == somes(resolvedv.take(k as int)),
                        decreases resolvedv.len() - k,
                    {
                        proof {
                            assert(resolvedv.take(k + 1).drop_last() =~= resolvedv.take(k as int));
                            assert(resolvedv.take(k + 1).last() == resolvedv[k as int]);
                        }
                        match &fr.resolved[k] {
                            Some(p) => {
                                let ghost prev = views(targets@);
                                targets.push(clone_bytes(p));
                                proof {
                                    assert(views(targets@) =~= prev.push(
                                        resolvedv[k as int]->Some_0,
                                    ));
                                    assert(views(targets@) =~= somes(resolvedv.take(k + 1)));
                                }
                            },
                            None => {
                                proof {
                                    assert(views(targets@) =~= somes(resolvedv.take(k + 1)));
                                }
                            },
                        }
                        k = k + 1;
                    }
                    proof {
                        assert(resolvedv.take(resolvedv.len() as int) =~= resolvedv);
                        assert(views(targets@) == adj(ws, ps, *cfg, h@));
                    }
                    let ghost prequeue = views(queue@);
                    queue.append(&mut targets);
                    order.push(clone_bytes(&h));
                    contents.push(transformed);
                    proof {
                        assert(views(queue@) =~= prequeue + adj(ws, ps, *cfg, h@));
                        assert(views(order@) =~= preo.push(h@));
                        let i0 = choose|i0: int| 0 <= i0 < ws.len() && ws[i0].content == files@[
                            idx as int
                        ].content@ && ws[i0].path == h@;
                        assert(exists|i: int| 0 <= i < ws.len() && ws[i].path == h@) by {
                            lemma_ws_lookup_exists(ws, h@);
                        }
                        lemma_undisc_push(ws, ws, ps, *cfg, preo, h@);
                        fuel = (fuel - 1) as nat;
                        assert forall|j: int, k2: int|
                            0 <= j < k2 < views(order@).len() implies views(order@)[j] != views(
                            order@,
                        )[k2] by {
                            if k2 < preo.len() {
                            } else {
                                assert(views(order@)[j] == preo[j]);
                                if preo[j] == h@ {
                                    assert(preo.contains(h@));
                                }
                            }
                        }
                    }
                },
                None => {
                    return Err(h);
                },
            }
        }
    }
    proof {
        assert(views(queue@).len() == 0);
        assert(bfs_n(ws, ps, *cfg, views(queue@), views(order@), fuel) == Ok::<_, Seq<u8>>(
            views(order@),
        ));
    }
    Ok(Discovered { paths: order, contents })
}

/// A successful lookup means some workspace file carries the path.
proof fn lemma_ws_lookup_exists(ws: Seq<FileModel>, path: Seq<u8>)
    requires
        ws_lookup(ws, path) is Some,
    ensures
        exists|i: int| 0 <= i < ws.len() && ws[i].path == path,
    decreases ws.len(),
{
    if ws.len() == 0 {
    } else if ws.first().path == path {
        assert(ws[0].path == path);
    } else {
        lemma_ws_lookup_exists(ws.drop_first(), path);
        let i = choose|i: int| 0 <= i < ws.drop_first().len() && ws.drop_first()[i].path == path;
        assert(ws[i + 1].path == path);
    }
}

/// The graph after recording edges from `from` to each of `targets`.
pub open spec fn add_edges(
    m: Seq<NodeModel>,
    from: Seq<u8>,
    targets: Seq<Seq<u8>>,
) -> Seq<NodeModel>
    decreases targets.len(),
{
    if targets.len() == 0 {
        m
    } else {
        add_edges(
            crate::graph::spec_add_edge(m, from, targets.first()),
            from,
            targets.drop_first(),
        )
    }
}

/// The dependency graph of a build: one node per discovered module in
/// discovery order, with its resolved import targets as edges.
pub open spec fn graph_of<P: Plugin>(
    ws: Seq<FileModel>,
    ps: Seq<P>,
    cfg: Config,
    order: Seq<Seq<u8>>,
) -> Seq<NodeModel>
    decreases order.len(),
{
    if order.len() == 0 {
        Seq::empty()
    } else {
        add_edges(
            crate::graph::spec_add_node(graph_of(ws, ps, cfg, order.drop_last()), order.last()),
            order.last(),
            adj(ws, ps, cfg, order.last()),
        )
    }
}

/// Collects the resolved targets of one analyzed module.
fn collect_somes(resolved: &Vec<Option<Vec<u8>>>) -> (r: Vec<Vec<u8>>)
    ensures
        views(r@) == somes(resolved@.map_values(|d: Option<Vec<u8>>| opt_view(d))),
{
    let ghost rv = resolved@.map_values(|d: Option<Vec<u8>>| opt_view(d));
    let mut out: Vec<Vec<u8>> = Vec::new();
    let mut k: usize = 0;
    proof {
        assert(rv.take(0) =~= Seq::<Option<Seq<u8>>>::empty());
        assert(views(out@) =~= somes(rv.take(0)));
    }
    while k < resolved.len()
        invariant
            0 <= k <= rv.len(),
            rv == resolved@.map_values(|d: Option<Vec<u8>>| opt_view(d)),
            views(out@) == somes(rv.take(k as int)),
        decreases rv.len() - k,
    {
        proof {
            assert(rv.take(k + 1).drop_last() =~= rv.take(k as int));
            assert(rv.take(k + 1).last() == rv[k as int]);
        }
        match &resolved[k] {
            Some(p) => {
                let ghost prev = views(out@);
                out.push(clone_bytes(p));
                proof {
                    assert(views(out@) =~= prev.push(rv[k as int]->Some_0));
                    assert(views(out@) =~= somes(rv.take(k + 1)));
                }
            },
            None => {
                proof {
                    assert(views(out@) =~= somes(rv.take(k + 1)));
                }
            },
        }
        k = k + 1;
    }
    proof {
        assert(rv.take(rv.len() as int) =~= rv);
    }
    out
}

/// Counts the dropped references of one analyzed module, saturating.
fn count_nones(resolved: &Vec<Option<Vec<u8>>>) -> (r: usize)
    ensures
        r == nones(resolved@.map_values(|d: Option<Vec<u8>>| opt_view(d))),
{
    let ghost rv = resolved@.map_values(|d: Option<Vec<u8>>| opt_view(d));
    let mut count: usize = 0;
    let mut k: usize = 0;
    proof {
        assert(rv.take(0) =~= Seq::<Option<Seq<u8>>>::empty());
    }
    while k < resolved.len()
        invariant
            0 <= k <= rv.len(),
            rv == resolved@.map_values(|d: Option<Vec<u8>>| opt_view(d)),
            count == nones(rv.take(k as int)),
            count <= k,
        decreases rv.len() - k,
    {
        proof {
            assert(rv.take(k + 1).drop_last() =~= rv.take(k as int));
            assert(rv.take(k + 1).last() == rv[k as int]);
        }
        if resolved[k].is_none() {
            count = count + 1;
        }
        k = k + 1;
    }
    proof {
        assert(rv.take(rv.len() as int) =~= rv);
    }
    count
}

/// Builds the dependency graph of the discovered modules. Edges are
/// recorded even to already-discovered targets, which keeps cycle
/// information.
fn build_graph<P: Plugin>(
    files: &Vec<SourceFile>,
    plugins: &PluginManager<P>,
    cfg: &Config,
    d: &Discovered,
) -> (g: Graph)
    requires
        d.contents@.len() == d.paths@.len(),
        forall|i: int|
            0 <= i < d.paths@.len() ==> #[trigger] d.contents@[i]@ == content_of(
                file_models(files@),
                plugins.model(),
                views(d.paths@)[i],
            ),
    ensures
        g.model() == graph_of(file_models(files@), plugins.model(), *cfg, views(d.paths@)),
        g.wf(),
{
    let ghost ws = file_models(files@);
    let ghost ps = plugins.model();
    let ghost order = views(d.paths@);
    let all_paths = collect_paths(files);
    let mut g = Graph::new();
    let mut i: usize = 0;
    proof {
        assert(order.take(0) =~= Seq::<Seq<u8>>::empty());
        assert(g.model() =~= graph_of(ws, ps, *cfg, order.take(0)));
    }
    while i < d.paths.len()
        invariant
            views(all_paths@) == ws_paths(ws),
            d.contents@.len() == d.paths@.len(),
            order == views(d.paths@),
            forall|j: int|
                0 <= j < d.paths@.len() ==> #[trigger] d.contents@[j]@ == content_of(
                    ws,
                    ps,
                    order[j],
                ),
            0 <= i <= order.len(),
            g.model() == graph_of(ws, ps, *cfg, order.take(i as int)),
            g.wf(),
        decreases order.len() - i,
    {
        proof {
            assert(order.take(i + 1).drop_last() =~= order.take(i as int));
            assert(order.take(i + 1).last() == order[i as int]);
        }
        let path = clone_bytes(&d.paths[i]);
        g.ensure_node(&path);
        let fr = analyze_module(plugins, cfg, &all_paths, &path, &d.contents[i]);
        proof {
            assert(ref_models(fr.refs@) == refs_of(ws, ps, path@));
            assert(fr.resolved@.map_values(|dd: Option<Vec<u8>>| opt_view(dd)) =~= resolved_of(
                ws,
                ps,
                *cfg,
                path@,
            ));
        }
        let targets = collect_somes(&fr.resolved);
        let ghost tv = adj(ws, ps, *cfg, path@);
        let ghost g1 = g.model();
        let mut k: usize = 0;
        proof {
            assert(tv.skip(0) =~= tv);
        }
        while k < targets.len()
            invariant
                0 <= k <= tv.len(),
                views(targets@) == tv,
                add_edges(g.model(), path@, tv.skip(k as int)) == add_edges(g1, path@, tv),
                g.wf(),
            decreases tv.len() - k,
        {
            proof {
                assert(tv.skip(k as int).first() == tv[k as int]);
                assert(tv.skip(k as int).drop_first() =~= tv.skip(k + 1));
            }
            g.add_edge(&path, &targets[k]);
            k = k + 1;
        }
        proof {
            assert(tv.skip(tv.len() as int) =~= Seq::<Seq<u8>>::empty());
            assert(g.model() == add_edges(g1, path@, tv));
            assert(g.model() == graph_of(ws, ps, *cfg, order.take(i + 1)));
        }
        i = i + 1;
    }
    proof {
        assert(order.take(order.len() as int) =~= order);
    }
    g
}

/// The cache contents of a build: one entry per discovered module, in
/// discovery order, holding its transformed content.
pub open spec fn cache_of<P: Plugin>(
    ws: Seq<FileModel>,
    ps: Seq<P>,
    order: Seq<Seq<u8>>,
) -> Seq<(Seq<u8>, Seq<u8>)>
    decreases order.len(),
{
    if order.len() == 0 {
        Seq::empty()
    } else {
        cache_of(ws, ps, order.drop_last()).push(
            (order.last(), content_of(ws, ps, order.last())),
        )
    }
}

/// The cache keys are exactly the discovery order.
pub proof fn lemma_cache_keys<P: Plugin>(ws: Seq<FileModel>, ps: Seq<P>, order: Seq<Seq<u8>>)
    ensures
        crate::cache::keys_of(cache_of(ws, ps, order)) =~= order,
    decreases order.len(),
{
    if order.len() == 0 {
        assert(crate::cache::keys_of(cache_of(ws, ps, order)) =~= order);
    } else {
        lemma_cache_keys(ws, ps, order.drop_last());
        assert(crate::cache::keys_of(cache_of(ws, ps, order)) =~= crate::cache::keys_of(
            cache_of(ws, ps, order.drop_last()),
        ).push(order.last()));
    }
}

/// Fills the cache: claims each discovered module once and stores its
/// transformed content. Every claim succeeds because discovery lists
/// each module exactly once.
fn fill_cache<P: Plugin>(files: &Vec<SourceFile>, plugins: &PluginManager<P>, d: &Discovered) -> (c:
    BuildCache)
    requires
        d.contents@.len() == d.paths@.len(),
        views(d.paths@).no_duplicates(),
        forall|i: int|
            0 <= i < d.paths@.len() ==> #[trigger] d.contents@[i]@ == content_of(
                file_models(files@),
                plugins.model(),
                views(d.paths@)[i],
            ),
    ensures
        c.model() == cache_of(file_models(files@), plugins.model(), views(d.paths@)),
        c.wf(),
{
    let ghost ws = file_models(files@);
    let ghost ps = plugins.model();
    let ghost order = views(d.paths@);
    let mut c = BuildCache::new();
    let mut i: usize = 0;
    proof {
        assert(order.take(0) =~= Seq::<Seq<u8>>::empty());
        assert(c.model() =~= cache_of(ws, ps, order.take(0)));
    }
    while i < d.paths.len()
        invariant
            d.contents@.len() == d.paths@.len(),
            order == views(d.paths@),
            order.no_duplicates(),
            forall|j: int|
                0 <= j < d.paths@.len() ==> #[trigger] d.contents@[j]@ == content_of(
                    ws,
                    ps,
                    order[j],
                ),
            0 <= i <= order.len(),
            c.model() == cache_of(ws, ps, order.take(i as int)),
            c.wf(),
        decreases order.len() - i,
    {
        proof {
            assert(order.take(i + 1).drop_last() =~= order.take(i as int));
            assert(order.take(i + 1).last() == order[i as int]);
            lemma_cache_keys(ws, ps, order.take(i as int));
            crate::cache::lemma_lookup(c.model(), order[i as int]);
            match crate::cache::lookup(c.model(), order[i as int]) {
                Some(_) => {
                    let j = choose|j: int|
                        0 <= j < c.model().len() && c.model()[j].0 == order[i as int] && forall|
                            k: int,
                        | 0 <= k < j ==> c.model()[k].0 != order[i as int];
                    assert(crate::cache::keys_of(c.model())[j] == order[i as int]);
                    assert(order.take(i as int)[j] == order[j]);
                    assert(order[j] == order[i as int]);
                    assert(false);
                },
                None => {},
            }
        }
        let content = clone_bytes(&d.contents[i]);
        let claimed = c.insert_once(&d.paths[i], content);
        proof {
            assert(claimed);
            assert(c.model() =~= cache_of(ws, ps, order.take(i + 1)));
        }
        i = i + 1;
    }
    proof {
        assert(order.take(order.len() as int) =~= order);
    }
    c
}

/// The modules assembled into output: the discovery order, pruned to the
/// identities reachable from the entry when tree shaking is enabled.
pub open spec fn assembly_of<P: Plugin>(
    ws: Seq<FileModel>,
    ps: Seq<P>,
    cfg: Config,
    order: Seq<Seq<u8>>,
) -> Seq<Seq<u8>> {
    if cfg.tree_shaking {
        order.filter(
            |p: Seq<u8>|
                crate::treeshake::reaches(
                    graph_of(ws, ps, cfg, order),
                    seq![cfg.entry_file@],
                    p,
                ),
        )
    } else {
        order
    }
}

/// Whether a module may be extracted into a chunk: it is not the entry
/// module and its kind has a chunk bucket (JSON modules stay inline).
pub open spec fn is_chunkable(cfg: Config, p: Seq<u8>) -> bool {
    p != cfg.entry_file@ && module_kind(p) != FileKind::Json
}

/// The modules extracted into chunks, in assembly order.
pub open spec fn chunk_list(cfg: Config, assembly: Seq<Seq<u8>>) -> Seq<Seq<u8>> {
    assembly.filter(|p: Seq<u8>| is_chunkable(cfg, p))
}

/// The kinds of the chunked modules.
pub open spec fn chunk_kinds(cl: Seq<Seq<u8>>) -> Seq<FileKind> {
    cl.map_values(|p: Seq<u8>| module_kind(p))
}

/// The modules whose content stays in the main bundle.
pub open spec fn bundle_members(cfg: Config, assembly: Seq<Seq<u8>>) -> Seq<Seq<u8>> {
    if cfg.code_splitting {
        assembly.filter(|p: Seq<u8>| !is_chunkable(cfg, p))
    } else {
        assembly
    }
}

/// What each import reference of a module is replaced by: the chunk name
/// of its resolved target when that target was chunked, nothing
/// otherwise.
pub open spec fn decisions_of<P: Plugin>(
    ws: Seq<FileModel>,
    ps: Seq<P>,
    cfg: Config,
    cl: Seq<Seq<u8>>,
    names: Seq<Seq<u8>>,
    path: Seq<u8>,
) -> Seq<Option<Seq<u8>>> {
    Seq::new(
        refs_of(ws, ps, path).len(),
        |i: int|
            {
                match resolved_of(ws, ps, cfg, path)[i] {
                    Some(t) => match find_in(cl, t) {
                        Some(j) => Some(names[j]),
                        None => None,
                    },
                    None => None,
                }
            },
    )
}

/// The content a module contributes to assembled output: with code
/// splitting, its transformed content with chunk-load calls in place of
/// the references whose targets were chunked; otherwise its transformed
/// content unchanged.
pub open spec fn rewritten_of<P: Plugin>(
    ws: Seq<FileModel>,
    ps: Seq<P>,
    cfg: Config,
    cl: Seq<Seq<u8>>,
    names: Seq<Seq<u8>>,
    path: Seq<u8>,
) -> Seq<u8> {
    if cfg.code_splitting {
        spec_rewrite(
            content_of(ws, ps, path),
            refs_of(ws, ps, path),
            decisions_of(ws, ps, cfg, cl, names, path),
            0,
        )
    } else {
        content_of(ws, ps, path)
    }
}

/// One module's slice of the bundle: a `// <path>` comment line for
/// traceability, the module's assembled content, and a newline.
pub open spec fn module_text(path: Seq<u8>, content: Seq<u8>) -> Seq<u8> {
    seq![47u8, 47u8, 32u8] + path + seq![10u8] + content + seq![10u8]
}

/// The bundle: the members' module texts concatenated in discovery
/// order.
pub open spec fn bundle_text<P: Plugin>(
    ws: Seq<FileModel>,
    ps: Seq<P>,
    cfg: Config,
    cl: Seq<Seq<u8>>,
    names: Seq<Seq<u8>>,
    members: Seq<Seq<u8>>,
) -> Seq<u8>
    decreases members.len(),
{
    if members.len() == 0 {
        Seq::empty()
    } else {
        bundle_text(ws, ps, cfg, cl, names, members.drop_last()) + module_text(
            members.last(),
            rewritten_of(ws, ps, cfg, cl, names, members.last()),
        )
    }
}

/// The chunks of a build, in creation order: each chunked module's
/// generated name, its bucket path, and its assembled content.
pub open spec fn chunks_of<P: Plugin>(
    ws: Seq<FileModel>,
    ps: Seq<P>,
    cfg: Config,
    cl: Seq<Seq<u8>>,
    names: Seq<Seq<u8>>,
) -> Seq<ChunkModel> {
    Seq::new(
        cl.len(),
        |j: int|
            ChunkModel {
                name: names[j],
                path: chunk_path(cfg.output_dir@, module_kind(cl[j]), names[j]),
                content: rewritten_of(ws, ps, cfg, cl, names, cl[j]),
            },
    )
}

/// The source-map generator state before any module is recorded.
pub open spec fn init_gen() -> GenModel {
    GenModel {
        file: seq![111u8, 117u8, 116u8, 46u8, 106u8, 115u8],
        sources: Seq::empty(),
        contents: Seq::empty(),
        names: Seq::empty(),
        mappings: Seq::empty(),
        next_line: 0,
    }
}

/// The generator state after recording every bundle member in order.
pub open spec fn gen_fold<P: Plugin>(
    ws: Seq<FileModel>,
    ps: Seq<P>,
    cfg: Config,
    cl: Seq<Seq<u8>>,
    names: Seq<Seq<u8>>,
    members: Seq<Seq<u8>>,
) -> GenModel
    decreases members.len(),
{
    if members.len() == 0 {
        init_gen()
    } else {
        crate::sourcemap::spec_add_mapping(
            gen_fold(ws, ps, cfg, cl, names, members.drop_last()),
            members.last(),
            rewritten_of(ws, ps, cfg, cl, names, members.last()),
        )
    }
}

/// The total number of edges dropped for resolution failures, over the
/// discovered modules.
pub open spec fn dropped_sum<P: Plugin>(
    ws: Seq<FileModel>,
    ps: Seq<P>,
    cfg: Config,
    order: Seq<Seq<u8>>,
) -> nat
    decreases order.len(),
{
    if order.len() == 0 {
        0
    } else {
        dropped_sum(ws, ps, cfg, order.drop_last()) + dropped_of(ws, ps, cfg, order.last())
    }
}

/// A machine-sized count, saturating at the machine limit.
pub open spec fn sat_usize(n: nat) -> int {
    if n <= usize::MAX {
        n as int
    } else {
        usize::MAX as int
    }
}

/// The user-visible summary of one build.
#[derive(Clone, Copy, PartialEq, Eq, Structural, Debug)]
pub struct BuildStats {
    /// How many modules were discovered and transformed.
    pub modules_processed: usize,
    /// How many dependency edges were dropped for resolution failures;
    /// nonzero counts are reported as warnings.
    pub edges_dropped: usize,
    /// How many module identities lie on dependency cycles; cycles are
    /// diagnostics and do not alter bundling.
    pub cycles_detected: usize,
}

/// Why a build failed. A resolution failure is not here: it drops one
/// edge and the build continues.
#[derive(Debug)]
pub enum BuildError {
    /// A referenced module could not be read from the workspace; the
    /// build aborts rather than assemble inconsistent output.
    ReadFailure(Vec<u8>),
    /// Two generated chunk names collided.
    ChunkNameCollision,
}

/// The persisted artifacts of one successful build.
pub struct BuildOutput {
    /// The concatenated bundle.
    pub bundle: Vec<u8>,
    /// The extracted chunks, in creation order.
    pub chunks: Vec<Chunk>,
    /// The chunk manifest, one `name: path` line per chunk.
    pub manifest: Vec<u8>,
    /// The serialized source map, when enabled.
    pub source_map: Option<Vec<u8>>,
    /// The build summary.
    pub stats: BuildStats,
}

/// Whether drawn chunk-name suffixes are well formed: one per chunked
/// module, each six ASCII letters or digits.
pub open spec fn wf_suffixes(sfx: Seq<Seq<u8>>, count: nat) -> bool {
    &&& sfx.len() == count
    &&& forall|i: int|
        0 <= i < sfx.len() ==> (#[trigger] sfx[i]).len() == 6 && forall|k: int|
            0 <= k < sfx[i].len() ==> crate::splitter::is_alnum(#[trigger] sfx[i][k])
}

/// What a successful build looks like: every artifact equals the
/// corresponding function of the workspace, the configuration, the
/// plugin set and the drawn suffixes.
pub open spec fn build_matches<P: Plugin>(
    ws: Seq<FileModel>,
    ps: Seq<P>,
    cfg: Config,
    sfx: Seq<Seq<u8>>,
    cachem: Seq<(Seq<u8>, Seq<u8>)>,
    graphm: Seq<NodeModel>,
    genm: GenModel,
    out: BuildOutput,
) -> bool {
    let order = discovery(ws, ps, cfg)->Ok_0;
    let assembly = assembly_of(ws, ps, cfg, order);
    let cl = if cfg.code_splitting {
        chunk_list(cfg, assembly)
    } else {
        Seq::empty()
    };
    let names = spec_names(chunk_kinds(cl), sfx);
    let members = bundle_members(cfg, assembly);
    &&& discovery(ws, ps, cfg) is Ok
    &&& wf_suffixes(sfx, cl.len())
    &&& graphm == graph_of(ws, ps, cfg, order)
    &&& cachem == cache_of(ws, ps, order)
    &&& out.bundle@ == bundle_text(ws, ps, cfg, cl, names, members)
    &&& chunk_models(out.chunks@) == chunks_of(ws, ps, cfg, cl, names)
    &&& out.manifest@ == manifest_text(chunks_of(ws, ps, cfg, cl, names))
    &&& genm == gen_fold(ws, ps, cfg, cl, names, members)
    &&& (cfg.generate_sourcemaps ==> opt_view(out.source_map) == Some(
        sourcemap_json(
            genm.file,
            genm.sources,
            genm.contents,
            genm.names,
            crate::sourcemap::mappings_text(genm.mappings),
        ),
    ))
    &&& (!cfg.generate_sourcemaps ==> out.source_map is None)
    &&& out.stats.modules_processed == order.len()
    &&& out.stats.edges_dropped == sat_usize(dropped_sum(ws, ps, cfg, order))
    &&& out.stats.cycles_detected == crate::graph::ids_of(graphm).filter(
        |id: Seq<u8>| crate::treeshake::on_cycle(graphm, id),
    ).len()
}

/// Computes the assembled content of one module under the chunk
/// decisions.
fn decide_rewrite<P: Plugin>(
    plugins: &PluginManager<P>,
    cfg: &Config,
    all_paths: &Vec<Vec<u8>>,
    cl: &Vec<Vec<u8>>,
    names: &Vec<Vec<u8>>,
    path: &Vec<u8>,
    content: &Vec<u8>,
) -> (r: Vec<u8>)
    requires
        views(names@).len() == views(cl@).len(),
    ensures
        forall|ws: Seq<FileModel>, ps: Seq<P>|
            (views(all_paths@) == ws_paths(ws) && ps == plugins.model() && content@ == content_of(
                ws,
                ps,
                path@,
            )) ==> r@ == rewritten_of(ws, ps, *cfg, views(cl@), views(names@), path@),
{
    if !cfg.code_splitting {
        return clone_bytes(content);
    }
    let fr = analyze_module(plugins, cfg, all_paths, path, content);
    let mut decisions: Vec<Option<Vec<u8>>> = Vec::new();
    let mut i: usize = 0;
    while i < fr.resolved.len()
        invariant
            0 <= i <= fr.resolved@.len(),
            fr.resolved@.len() == fr.refs@.len(),
            decisions@.len() == i,
            ref_models(fr.refs@) == spec_scan(content@, module_kind(path@), 0),
            views(names@).len() == views(cl@).len(),
            forall|j: int|
                0 <= j < fr.resolved@.len() ==> opt_view(#[trigger] fr.resolved@[j]) == {
                    match spec_resolve(
                        chain_resolve(plugins.model(), ref_models(fr.refs@)[j].target),
                        path@,
                        ref_models(fr.refs@)[j].target,
                        cfg.search_path@,
                        views(cfg.fallback_extensions@),
                        views(all_paths@),
                    ) {
                        Ok(p) => Some(p),
                        Err(_) => None,
                    }
                },
            forall|j: int|
                0 <= j < i ==> opt_view(#[trigger] decisions@[j]) == {
                    match opt_view(fr.resolved@[j]) {
                        Some(t) => match find_in(views(cl@), t) {
                            Some(k) => Some(views(names@)[k]),
                            None => None,
                        },
                        None => None,
                    }
                },
        decreases fr.resolved@.len() - i,
    {
        match &fr.resolved[i] {
            Some(t) => {
                proof {
                    crate::bytesutil::lemma_find_in(views(cl@), t@);
                }
                match index_of(cl, t) {
                    Some(k) => {
                        decisions.push(Some(clone_bytes(&names[k])));
                    },
                    None => {
                        decisions.push(None);
                    },
                }
            },
            None => {
                decisions.push(None);
            },
        }
        i = i + 1;
    }
    proof {
        crate::splitter::lemma_scan_spans(content@, module_kind(path@), 0);
    }
    let r = crate::splitter::rewrite_content(content, &fr.refs, &decisions);
    proof {
        assert forall|ws: Seq<FileModel>, ps: Seq<P>|
            (views(all_paths@) == ws_paths(ws) && ps == plugins.model() && content@ == content_of(
                ws,
                ps,
                path@,
            )) implies r@ == rewritten_of(ws, ps, *cfg, views(cl@), views(names@), path@) by {
            assert(ref_models(fr.refs@) == refs_of(ws, ps, path@));
            assert(fr.resolved@.map_values(|d: Option<Vec<u8>>| opt_view(d)) =~= resolved_of(
                ws,
                ps,
                *cfg,
                path@,
            ));
            assert(decisions@.map_values(|d: Option<Vec<u8>>| opt_view(d)) =~= decisions_of(
                ws,
                ps,
                *cfg,
                views(cl@),
                views(names@),
                path@,
            ));
        }
    }
    r
}

/// The strategy that turns accumulated content into the final bundle.
/// The built-in strategy emits the accumulated content unchanged.
pub struct BundleStrategy;

impl BundleStrategy {
    /// Finalizes the bundle: the built-in strategy returns the
    /// accumulated content as it stands.
    pub fn finalize(&self, bundle_content: &Vec<u8>, dependency_graph: &Graph) -> (r: Vec<u8>)
        ensures
            r@ == bundle_content@,
    {
        clone_bytes(bundle_content)
    }
}

impl Default for BundleStrategy {
    /// The built-in strategy.
    fn default() -> (r: BundleStrategy) {
        BundleStrategy
    }
}

/// Prunes the discovery order to the reachable identities when tree
/// shaking is enabled.
fn shake_assembly<P: Plugin>(
    files: &Vec<SourceFile>,
    plugins: &PluginManager<P>,
    cfg: &Config,
    g: &Graph,
    d: &Discovered,
) -> (r: Vec<Vec<u8>>)
    requires
        g.model() == graph_of(file_models(files@), plugins.model(), *cfg, views(d.paths@)),
    ensures
        views(r@) == assembly_of(file_models(files@), plugins.model(), *cfg, views(d.paths@)),
{
    let ghost ws = file_models(files@);
    let ghost ps = plugins.model();
    let ghost cfg0 = *cfg;
    let ghost order = views(d.paths@);
    if !cfg.tree_shaking {
        let r = clone_list(&d.paths);
        return r;
    }
    proof {
        reveal(Seq::filter);
    }
    let mut entries: Vec<Vec<u8>> = Vec::new();
    entries.push(clone_bytes(&cfg.entry_file));
    proof {
        assert(views(entries@) =~= seq![cfg0.entry_file@]);
    }
    let reachable = crate::treeshake::tree_shaker(g, &entries);
    let ghost pred = |p: Seq<u8>|
        crate::treeshake::reaches(graph_of(ws, ps, cfg0, order), seq![cfg0.entry_file@], p);
    let mut assembly: Vec<Vec<u8>> = Vec::new();
    let mut i: usize = 0;
    proof {
        assert(order.take(0) =~= Seq::<Seq<u8>>::empty());
        assert(views(assembly@) =~= order.take(0).filter(pred));
    }
    while i < d.paths.len()
        invariant
            0 <= i <= order.len(),
            order == views(d.paths@),
            views(assembly@) == order.take(i as int).filter(pred),
            pred == (|p: Seq<u8>|
                crate::treeshake::reaches(
                    graph_of(ws, ps, cfg0, order),
                    seq![cfg0.entry_file@],
                    p,
                )),
            forall|p: Seq<u8>|
                #[trigger] views(reachable@).contains(p) <==> crate::treeshake::reaches(
                    graph_of(ws, ps, cfg0, order),
                    seq![cfg0.entry_file@],
                    p,
                ),
        decreases order.len() - i,
    {
        proof {
            assert(order.take(i + 1).drop_last() =~= order.take(i as int));
            assert(order.take(i + 1).last() == order[i as int]);
        }
        if list_contains(&reachable, &d.paths[i]) {
            let ghost prev = views(assembly@);
            assembly.push(clone_bytes(&d.paths[i]));
            proof {
                assert(views(assembly@) =~= prev.push(order[i as int]));
                assert(views(assembly@) =~= order.take(i + 1).filter(pred));
            }
        } else {
            proof {
                assert(views(assembly@) =~= order.take(i + 1).filter(pred));
            }
        }
        i = i + 1;
    }
    proof {
        assert(order.take(order.len() as int) =~= order);
    }
    assembly
}

/// Selects the modules extracted into chunks and their kinds: every
/// assembled module except the entry and the JSON modules, when code
/// splitting is on; nothing otherwise.
fn select_chunks(cfg: &Config, assembly: &Vec<Vec<u8>>) -> (r: (Vec<Vec<u8>>, Vec<FileKind>))
    ensures
        views(r.0@) == (if cfg.code_splitting {
            chunk_list(*cfg, views(assembly@))
        } else {
            Seq::<Seq<u8>>::empty()
        }),
        r.1@ == chunk_kinds(views(r.0@)),
{
    let ghost cfg0 = *cfg;
    let ghost assemblyv = views(assembly@);
    let mut cl: Vec<Vec<u8>> = Vec::new();
    let mut kinds: Vec<FileKind> = Vec::new();
    proof {
        assert(views(cl@) =~= Seq::<Seq<u8>>::empty());
        assert(kinds@ =~= chunk_kinds(views(cl@)));
    }
    if !cfg.code_splitting {
        return (cl, kinds);
    }
    proof {
        reveal(Seq::filter);
    }
    let ghost cpred = |p: Seq<u8>| is_chunkable(cfg0, p);
    let mut i: usize = 0;
    proof {
        assert(assemblyv.take(0) =~= Seq::<Seq<u8>>::empty());
        assert(views(cl@) =~= assemblyv.take(0).filter(cpred));
    }
    while i < assembly.len()
        invariant
            0 <= i <= assemblyv.len(),
            assemblyv == views(assembly@),
            views(cl@) == assemblyv.take(i as int).filter(cpred),
            kinds@ == chunk_kinds(views(cl@)),
            cpred == (|p: Seq<u8>| is_chunkable(cfg0, p)),
        decreases assemblyv.len() - i,
    {
        proof {
            assert(assemblyv.take(i + 1).drop_last() =~= assemblyv.take(i as int));
            assert(assemblyv.take(i + 1).last() == assemblyv[i as int]);
        }
        let k = module_kind_of(&assembly[i]);
        let is_entry = crate::bytesutil::bytes_eq(&assembly[i], &cfg.entry_file);
        if !is_entry && !matches!(k, FileKind::Json) {
            let ghost prevc = views(cl@);
            cl.push(clone_bytes(&assembly[i]));
            kinds.push(k);
            proof {
                assert(views(cl@) =~= prevc.push(assemblyv[i as int]));
                assert(views(cl@) =~= assemblyv.take(i + 1).filter(cpred));
                assert(kinds@ =~= chunk_kinds(views(cl@)));
            }
        } else {
            proof {
                assert(views(cl@) =~= assemblyv.take(i + 1).filter(cpred));
            }
        }
        i = i + 1;
    }
    proof {
        assert(assemblyv.take(assemblyv.len() as int) =~= assemblyv);
    }
    (cl, kinds)
}

/// The modules whose content stays in the main bundle.
fn compute_members(cfg: &Config, assembly: &Vec<Vec<u8>>) -> (r: Vec<Vec<u8>>)
    ensures
        views(r@) == bundle_members(*cfg, views(assembly@)),
{
    let ghost cfg0 = *cfg;
    let ghost assemblyv = views(assembly@);
    if !cfg.code_splitting {
        let r = clone_list(assembly);
        return r;
    }
    proof {
        reveal(Seq::filter);
    }
    let ghost mpred = |p: Seq<u8>| !is_chunkable(cfg0, p);
    let mut members: Vec<Vec<u8>> = Vec::new();
    let mut i: usize = 0;
    proof {
        assert(assemblyv.take(0) =~= Seq::<Seq<u8>>::empty());
        assert(views(members@) =~= assemblyv.take(0).filter(mpred));
    }
    while i < assembly.len()
        invariant
            0 <= i <= assemblyv.len(),
            assemblyv == views(assembly@),
            views(members@) == assemblyv.take(i as int).filter(mpred),
            mpred == (|p: Seq<u8>| !is_chunkable(cfg0, p)),
        decreases assemblyv.len() - i,
    {
        proof {
            assert(assemblyv.take(i + 1).drop_last() =~= assemblyv.take(i as int));
            assert(assemblyv.take(i + 1).last() == assemblyv[i as int]);
        }
        let k = module_kind_of(&assembly[i]);
        let is_entry = crate::bytesutil::bytes_eq(&assembly[i], &cfg.entry_file);
        if is_entry || matches!(k, FileKind::Json) {
            let ghost prevm = views(members@);
            members.push(clone_bytes(&assembly[i]));
            proof {
                assert(views(members@) =~= prevm.push(assemblyv[i as int]));
                assert(views(members@) =~= assemblyv.take(i + 1).filter(mpred));
            }
        } else {
            proof {
                assert(views(members@) =~= assemblyv.take(i + 1).filter(mpred));
            }
        }
        i = i + 1;
    }
    proof {
        assert(assemblyv.take(assemblyv.len() as int) =~= assemblyv);
    }
    members
}

/// Draws one six-character random suffix per chunk.
fn draw_suffixes(count: usize) -> (r: Vec<Vec<u8>>)
    ensures
        wf_suffixes(views(r@), count as nat),
{
    let mut suffixes: Vec<Vec<u8>> = Vec::new();
    let mut si: usize = 0;
    while si < count
        invariant
            0 <= si <= count,
            suffixes@.len() == si,
            forall|i: int|
                0 <= i < si ==> (#[trigger] views(suffixes@)[i]).len() == 6 && forall|k: int|
                    0 <= k < views(suffixes@)[i].len() ==> crate::splitter::is_alnum(
                        #[trigger] views(suffixes@)[i][k],
                    ),
        decreases count - si,
    {
        let ghost prev = views(suffixes@);
        let sfx = crate::splitter::generate_random_name(6);
        suffixes.push(sfx);
        proof {
            assert forall|i: int|
                0 <= i < si + 1 implies (#[trigger] views(suffixes@)[i]).len() == 6 && forall|
                k: int,
            | 0 <= k < views(suffixes@)[i].len() ==> crate::splitter::is_alnum(
                #[trigger] views(suffixes@)[i][k],
            ) by {
                if i < si {
                    assert(views(suffixes@)[i] == prev[i]);
                } else {
                    assert(views(suffixes@)[i] == sfx@);
                }
            }
        }
        si = si + 1;
    }
    suffixes
}

/// Assembles the chunk files: each chunked module's generated name, its
/// bucket path, and its rewritten content.
fn build_chunks<P: Plugin>(
    files: &Vec<SourceFile>,
    plugins: &PluginManager<P>,
    cfg: &Config,
    all_paths: &Vec<Vec<u8>>,
    d: &Discovered,
    cl: &Vec<Vec<u8>>,
    names: &Vec<Vec<u8>>,
) -> (r: Vec<Chunk>)
    requires
        views(all_paths@) == ws_paths(file_models(files@)),
        views(names@).len() == views(cl@).len(),
        d.contents@.len() == d.paths@.len(),
        forall|i: int|
            0 <= i < d.paths@.len() ==> #[trigger] d.contents@[i]@ == content_of(
                file_models(files@),
                plugins.model(),
                views(d.paths@)[i],
            ),
        forall|p: Seq<u8>| #[trigger]
            views(cl@).contains(p) ==> views(d.paths@).contains(p),
    ensures
        chunk_models(r@) == chunks_of(
            file_models(files@),
            plugins.model(),
            *cfg,
            views(cl@),
            views(names@),
        ),
{
    let ghost ws = file_models(files@);
    let ghost ps = plugins.model();
    let ghost cfg0 = *cfg;
    let ghost order = views(d.paths@);
    let ghost clv = views(cl@);
    let ghost namesv = views(names@);
    let mut chunks: Vec<Chunk> = Vec::new();
    let mut j: usize = 0;
    proof {
        assert(chunk_models(chunks@) =~= chunks_of(ws, ps, cfg0, clv, namesv).take(0));
    }
    while j < cl.len()
        invariant
            0 <= j <= clv.len(),
            views(cl@) == clv,
            views(names@) == namesv,
            namesv.len() == clv.len(),
            views(all_paths@) == ws_paths(ws),
            ps == plugins.model(),
            cfg0 == *cfg,
            order == views(d.paths@),
            d.contents@.len() == d.paths@.len(),
            forall|i: int|
                0 <= i < d.paths@.len() ==> #[trigger] d.contents@[i]@ == content_of(
                    ws,
                    ps,
                    order[i],
                ),
            forall|p: Seq<u8>| #[trigger] clv.contains(p) ==> order.contains(p),
            chunk_models(chunks@) == chunks_of(ws, ps, cfg0, clv, namesv).take(j as int),
        decreases clv.len() - j,
    {
        proof {
            assert(clv.contains(clv[j as int]));
            assert(order.contains(clv[j as int]));
            crate::bytesutil::lemma_find_in(order, clv[j as int]);
            if find_in(order, clv[j as int]) is None {
                let t = choose|t: int| 0 <= t < order.len() && order[t] == clv[j as int];
                assert(order[t] != clv[j as int]);
            }
        }
        let oi = match index_of(&d.paths, &cl[j]) {
            Some(oi) => oi,
            None => {
                proof {
                    assert(false);
                }
                0
            },
        };
        let kind = module_kind_of(&cl[j]);
        let content = decide_rewrite(plugins, cfg, all_paths, cl, names, &cl[j], &d.contents[oi]);
        let path = chunk_path_bytes(&cfg.output_dir, kind, &names[j]);
        let ghost prevch = chunk_models(chunks@);
        chunks.push(Chunk { name: clone_bytes(&names[j]), path, content });
        proof {
            assert(chunk_models(chunks@) =~= prevch.push(
                chunks_of(ws, ps, cfg0, clv, namesv)[j as int],
            ));
            assert(chunk_models(chunks@) =~= chunks_of(ws, ps, cfg0, clv, namesv).take(j + 1));
        }
        j = j + 1;
    }
    proof {
        assert(chunks_of(ws, ps, cfg0, clv, namesv).take(clv.len() as int) =~= chunks_of(
            ws,
            ps,
            cfg0,
            clv,
            namesv,
        ));
    }
    chunks
}

/// Assembles the bundle and accumulates the source map: each member in
/// discovery order contributes its path comment and rewritten content.
fn assemble<P: Plugin>(
    files: &Vec<SourceFile>,
    plugins: &PluginManager<P>,
    cfg: &Config,
    all_paths: &Vec<Vec<u8>>,
    d: &Discovered,
    cl: &Vec<Vec<u8>>,
    names: &Vec<Vec<u8>>,
    members: &Vec<Vec<u8>>,
) -> (r: (Vec<u8>, SourceMapGenerator))
    requires
        views(all_paths@) == ws_paths(file_models(files@)),
        views(names@).len() == views(cl@).len(),
        d.contents@.len() == d.paths@.len(),
        forall|i: int|
            0 <= i < d.paths@.len() ==> #[trigger] d.contents@[i]@ == content_of(
                file_models(files@),
                plugins.model(),
                views(d.paths@)[i],
            ),
        forall|p: Seq<u8>| #[trigger]
            views(members@).contains(p) ==> views(d.paths@).contains(p),
    ensures
        r.0@ == bundle_text(
            file_models(files@),
            plugins.model(),
            *cfg,
            views(cl@),
            views(names@),
            views(members@),
        ),
        r.1.model() == gen_fold(
            file_models(files@),
            plugins.model(),
            *cfg,
            views(cl@),
            views(names@),
            views(members@),
        ),
{
    let ghost ws = file_models(files@);
    let ghost ps = plugins.model();
    let ghost cfg0 = *cfg;
    let ghost order = views(d.paths@);
    let ghost clv = views(cl@);
    let ghost namesv = views(names@);
    let ghost membersv = views(members@);
    let mut bundle: Vec<u8> = Vec::new();
    let mut gen = SourceMapGenerator::new();
    let mut bi: usize = 0;
    proof {
        assert(gen.model() =~= init_gen());
        assert(membersv.take(0) =~= Seq::<Seq<u8>>::empty());
        assert(bundle@ =~= bundle_text(ws, ps, cfg0, clv, namesv, membersv.take(0)));
        assert(gen.model() =~= gen_fold(ws, ps, cfg0, clv, namesv, membersv.take(0)));
    }
    while bi < members.len()
        invariant
            0 <= bi <= membersv.len(),
            views(members@) == membersv,
            views(cl@) == clv,
            views(names@) == namesv,
            namesv.len() == clv.len(),
            views(all_paths@) == ws_paths(ws),
            ps == plugins.model(),
            cfg0 == *cfg,
            order == views(d.paths@),
            d.contents@.len() == d.paths@.len(),
            forall|i: int|
                0 <= i < d.paths@.len() ==> #[trigger] d.contents@[i]@ == content_of(
                    ws,
                    ps,
                    order[i],
                ),
            forall|p: Seq<u8>| #[trigger] membersv.contains(p) ==> order.contains(p),
            bundle@ == bundle_text(ws, ps, cfg0, clv, namesv, membersv.take(bi as int)),
            gen.model() == gen_fold(ws, ps, cfg0, clv, namesv, membersv.take(bi as int)),
        decreases membersv.len() - bi,
    {
        proof {
            assert(membersv.take(bi + 1).drop_last() =~= membersv.take(bi as int));
            assert(membersv.take(bi + 1).last() == membersv[bi as int]);
            assert(membersv.contains(membersv[bi as int]));
            assert(order.contains(membersv[bi as int]));
            crate::bytesutil::lemma_find_in(order, membersv[bi as int]);
            if find_in(order, membersv[bi as int]) is None {
                let t = choose|t: int| 0 <= t < order.len() && order[t] == membersv[bi as int];
                assert(order[t] != membersv[bi as int]);
            }
        }
        let oi = match index_of(&d.paths, &members[bi]) {
            Some(oi) => oi,
            None => {
                proof {
                    assert(false);
                }
                0
            },
        };
        let content = decide_rewrite(
            plugins,
            cfg,
            all_paths,
            cl,
            names,
            &members[bi],
            &d.contents[oi],
        );
        let ghost prevb = bundle@;
        bundle.push(47);
        bundle.push(47);
        bundle.push(32);
        crate::bytesutil::append_bytes(&mut bundle, &members[bi]);
        bundle.push(10);
        crate::bytesutil::append_bytes(&mut bundle, &content);
        bundle.push(10);
        gen.add_mapping(&members[bi], &content);
        proof {
            assert(bundle@ =~= prevb + module_text(
                membersv[bi as int],
                rewritten_of(ws, ps, cfg0, clv, namesv, membersv[bi as int]),
            ));
            assert(bundle@ =~= bundle_text(ws, ps, cfg0, clv, namesv, membersv.take(bi + 1)));
            assert(gen.model() =~= gen_fold(ws, ps, cfg0, clv, namesv, membersv.take(bi + 1)));
        }
        bi = bi + 1;
    }
    proof {
        assert(membersv.take(membersv.len() as int) =~= membersv);
    }
    (bundle, gen)
}

/// Counts the edges dropped for resolution failures over the discovered
/// modules, saturating at the machine limit.
fn count_dropped<P: Plugin>(
    files: &Vec<SourceFile>,
    plugins: &PluginManager<P>,
    cfg: &Config,
    all_paths: &Vec<Vec<u8>>,
    d: &Discovered,
) -> (r: usize)
    requires
        views(all_paths@) == ws_paths(file_models(files@)),
        d.contents@.len() == d.paths@.len(),
        forall|i: int|
            0 <= i < d.paths@.len() ==> #[trigger] d.contents@[i]@ == content_of(
                file_models(files@),
                plugins.model(),
                views(d.paths@)[i],
            ),
    ensures
        r == sat_usize(
            dropped_sum(file_models(files@), plugins.model(), *cfg, views(d.paths@)),
        ),
{
    let ghost ws = file_models(files@);
    let ghost ps = plugins.model();
    let ghost cfg0 = *cfg;
    let ghost order = views(d.paths@);
    let mut dropped: usize = 0;
    let mut di: usize = 0;
    proof {
        assert(order.take(0) =~= Seq::<Seq<u8>>::empty());
    }
    while di < d.paths.len()
        invariant
            0 <= di <= order.len(),
            order == views(d.paths@),
            d.contents@.len() == d.paths@.len(),
            views(all_paths@) == ws_paths(ws),
            ps == plugins.model(),
            cfg0 == *cfg,
            forall|i: int|
                0 <= i < d.paths@.len() ==> #[trigger] d.contents@[i]@ == content_of(
                    ws,
                    ps,
                    order[i],
                ),
            dropped == sat_usize(dropped_sum(ws, ps, cfg0, order.take(di as int))),
        decreases order.len() - di,
    {
        proof {
            assert(order.take(di + 1).drop_last() =~= order.take(di as int));
            assert(order.take(di + 1).last() == order[di as int]);
        }
        let fr = analyze_module(plugins, cfg, all_paths, &d.paths[di], &d.contents[di]);
        proof {
            assert(fr.resolved@.map_values(|dd: Option<Vec<u8>>| opt_view(dd)) =~= resolved_of(
                ws,
                ps,
                cfg0,
                order[di as int],
            ));
        }
        let n = count_nones(&fr.resolved);
        if dropped <= usize::MAX - n {
            dropped = dropped + n;
        } else {
            dropped = usize::MAX;
        }
        di = di + 1;
    }
    proof {
        assert(order.take(order.len() as int) =~= order);
    }
    dropped
}

/// The bundling engine: configuration, plugins, and the per-build
/// accumulators for the cache, the dependency graph and the source map.
pub struct Bundler<P: Plugin> {
    /// The build configuration.
    pub config: Config,
    /// The registered hooks.
    pub plugins: PluginManager<P>,
    /// The transform cache of the most recent build.
    pub cache: BuildCache,
    /// The dependency graph of the most recent build.
    pub dependency_graph: Graph,
    /// The source-map accumulator of the most recent build.
    pub sourcemap_generator: SourceMapGenerator,
    /// The finalization strategy.
    pub bundle_strategy: BundleStrategy,
}

impl<P: Plugin> Bundler<P> {
    /// Creates a bundler over a configuration and a plugin set, with
    /// empty per-build state.
    pub fn new(config: Config, plugins: PluginManager<P>) -> (b: Bundler<P>)
        ensures
            b.config == config,
            b.plugins == plugins,
            b.cache.model() =~= Seq::<(Seq<u8>, Seq<u8>)>::empty(),
            b.dependency_graph.model() =~= Seq::<NodeModel>::empty(),
    {
        Bundler {
            config,
            plugins,
            cache: BuildCache::new(),
            dependency_graph: Graph::new(),
            sourcemap_generator: SourceMapGenerator::new(),
            bundle_strategy: BundleStrategy,
        }
    }

    /// Runs one build over a workspace snapshot: discovers modules from
    /// the entry, transforms each exactly once, records the dependency
    /// graph, optionally prunes unreachable modules and extracts chunks,
    /// and assembles the bundle with an optional source map.
    ///
    /// The build fails with `ReadFailure` exactly when a referenced
    /// module is missing from the workspace, and with
    /// `ChunkNameCollision` only when code splitting is on and two drawn
    /// chunk names collide; with splitting off, a build over a workspace
    /// that holds every referenced module always succeeds.
    #[verifier::rlimit(100)]
    #[verifier::spinoff_prover]
    pub fn bundle(&mut self, files: &Vec<SourceFile>) -> (r: Result<BuildOutput, BuildError>)
        requires
            wf_workspace(file_models(files@)),
        ensures
            old(self).config == final(self).config,
            match r {
                Ok(out) => exists|sfx: Seq<Seq<u8>>|
                    build_matches(
                        file_models(files@),
                        old(self).plugins.model(),
                        old(self).config,
                        sfx,
                        final(self).cache.model(),
                        final(self).dependency_graph.model(),
                        final(self).sourcemap_generator.model(),
                        out,
                    ),
                Err(BuildError::ReadFailure(p)) => discovery(
                    file_models(files@),
                    old(self).plugins.model(),
                    old(self).config,
                ) == Err::<Seq<Seq<u8>>, _>(p@),
                Err(BuildError::ChunkNameCollision) => old(self).config.code_splitting
                    && discovery(
                    file_models(files@),
                    old(self).plugins.model(),
                    old(self).config,
                ) is Ok,
            },
            (!old(self).config.code_splitting && r is Ok) ==> build_matches(
                file_models(files@),
                old(self).plugins.model(),
                old(self).config,
                Seq::<Seq<u8>>::empty(),
                final(self).cache.model(),
                final(self).dependency_graph.model(),
                final(self).sourcemap_generator.model(),
                r->Ok_0,
            ),
            (!old(self).config.code_splitting && discovery(
                file_models(files@),
                old(self).plugins.model(),
                old(self).config,
            ) is Ok) ==> r is Ok,
    {
        let ghost ws = file_models(files@);
        let ghost ps = self.plugins.model();
        let ghost cfg0 = self.config;
        let all_paths = collect_paths(files);
        let d = match discover(files, &self.plugins, &self.config) {
            Ok(d) => d,
            Err(p) => {
                return Err(BuildError::ReadFailure(p));
            },
        };
        let ghost order = views(d.paths@);
        let g = build_graph(files, &self.plugins, &self.config, &d);
        let c = fill_cache(files, &self.plugins, &d);
        let cycles = crate::treeshake::detect_cycles(&g);
        let assembly = shake_assembly(files, &self.plugins, &self.config, &g, &d);
        let ghost assemblyv = assembly_of(ws, ps, cfg0, order);
        let pair = select_chunks(&self.config, &assembly);
        let cl = pair.0;
        let kinds = pair.1;
        let ghost clv = if cfg0.code_splitting {
            chunk_list(cfg0, assemblyv)
        } else {
            Seq::<Seq<u8>>::empty()
        };
        proof {
            assert(views(cl@) == clv);
            assert(kinds@ == chunk_kinds(clv));
            assert forall|p: Seq<u8>| #[trigger] assemblyv.contains(p) implies order.contains(
                p,
            ) by {
                if cfg0.tree_shaking {
                    crate::treeshake::lemma_filter_from(
                        order,
                        |p2: Seq<u8>|
                            crate::treeshake::reaches(
                                graph_of(ws, ps, cfg0, order),
                                seq![cfg0.entry_file@],
                                p2,
                            ),
                    );
                }
            }
            assert forall|p: Seq<u8>| #[trigger] clv.contains(p) implies order.contains(p) by {
                if cfg0.code_splitting {
                    crate::treeshake::lemma_filter_from(
                        assemblyv,
                        |p2: Seq<u8>| is_chunkable(cfg0, p2),
                    );
                    assert(assemblyv.contains(p));
                }
            }
            assert forall|p: Seq<u8>|
                #[trigger] bundle_members(cfg0, assemblyv).contains(p) implies order.contains(
                p,
            ) by {
                if cfg0.code_splitting {
                    crate::treeshake::lemma_filter_from(
                        assemblyv,
                        |p2: Seq<u8>| !is_chunkable(cfg0, p2),
                    );
                    assert(assemblyv.contains(p));
                }
            }
        }
        let suffixes = draw_suffixes(cl.len());
        let ghost sfx = views(suffixes@);
        let names = match plan_chunk_names(&kinds, &suffixes) {
            Some(n) => n,
            None => {
                return Err(BuildError::ChunkNameCollision);
            },
        };
        let ghost namesv = spec_names(chunk_kinds(clv), sfx);
        proof {
            assert(views(names@) == namesv);
        }
        let members = compute_members(&self.config, &assembly);
        let chunks = build_chunks(files, &self.plugins, &self.config, &all_paths, &d, &cl, &names);
        let manifest = crate::splitter::write_manifest(&chunks);
        let assembled = assemble(
            files,
            &self.plugins,
            &self.config,
            &all_paths,
            &d,
            &cl,
            &names,
            &members,
        );
        let bundle = assembled.0;
        let gen = assembled.1;
        let final_bundle = self.bundle_strategy.finalize(&bundle, &g);
        let source_map = if self.config.generate_sourcemaps {
            Some(gen.generate())
        } else {
            None
        };
        let dropped = count_dropped(files, &self.plugins, &self.config, &all_paths, &d);
        let stats = BuildStats {
            modules_processed: d.paths.len(),
            edges_dropped: dropped,
            cycles_detected: cycles.len(),
        };
        self.cache = c;
        self.dependency_graph = g;
        self.sourcemap_generator = gen;
        let out = BuildOutput { bundle: final_bundle, chunks, manifest, source_map, stats };
        proof {
            assert(build_matches(
                ws,
                ps,
                cfg0,
                sfx,
                self.cache.model(),
                self.dependency_graph.model(),
                self.sourcemap_generator.model(),
                out,
            ));
            if !cfg0.code_splitting {
                assert(sfx =~= Seq::<Seq<u8>>::empty());
            }
        }
        Ok(out)
    }
}

/// Determinism of the build: two successful builds over the same
/// workspace, configuration, plugin set and drawn suffixes produce
/// byte-identical bundles, manifests, chunks and source maps.
pub proof fn lemma_build_deterministic<P: Plugin>(
    ws: Seq<FileModel>,
    ps: Seq<P>,
    cfg: Config,
    sfx: Seq<Seq<u8>>,
    c1: Seq<(Seq<u8>, Seq<u8>)>,
    g1: Seq<NodeModel>,
    m1: GenModel,
    o1: BuildOutput,
    c2: Seq<(Seq<u8>, Seq<u8>)>,
    g2: Seq<NodeModel>,
    m2: GenModel,
    o2: BuildOutput,
)
    requires
        build_matches(ws, ps, cfg, sfx, c1, g1, m1, o1),
        build_matches(ws, ps, cfg, sfx, c2, g2, m2, o2),
    ensures
        o1.bundle@ == o2.bundle@,
        o1.manifest@ == o2.manifest@,
        chunk_models(o1.chunks@) == chunk_models(o2.chunks@),
        opt_view(o1.source_map) == opt_view(o2.source_map),
        c1 == c2,
        g1 == g2,
        o1.stats == o2.stats,
{
}

/// The at-most-once transform guarantee: a build caches each discovered
/// module exactly once — the cache keys are the discovery order, without
/// duplicates, however many edges point at a module — and assembles each
/// bundle member exactly once.
pub proof fn lemma_transform_once<P: Plugin>(
    ws: Seq<FileModel>,
    ps: Seq<P>,
    cfg: Config,
    sfx: Seq<Seq<u8>>,
    cachem: Seq<(Seq<u8>, Seq<u8>)>,
    graphm: Seq<NodeModel>,
    genm: GenModel,
    out: BuildOutput,
)
    requires
        build_matches(ws, ps, cfg, sfx, cachem, graphm, genm, out),
    ensures
        crate::cache::keys_of(cachem) =~= discovery(ws, ps, cfg)->Ok_0,
        crate::cache::keys_of(cachem).no_duplicates(),
        bundle_members(cfg, assembly_of(ws, ps, cfg, discovery(ws, ps, cfg)->Ok_0)).no_duplicates(),
{
    let order = discovery(ws, ps, cfg)->Ok_0;
    lemma_cache_keys(ws, ps, order);
    lemma_bfs_props(
        ws,
        ps,
        cfg,
        seq![cfg.entry_file@],
        Seq::<Seq<u8>>::empty(),
        (1 + undisc_sum(ws, ws, ps, cfg, Seq::<Seq<u8>>::empty())) as nat,
    );
    assert(order.no_duplicates());
    let assembly = assembly_of(ws, ps, cfg, order);
    if cfg.tree_shaking {
        crate::treeshake::lemma_filter_nodup(
            order,
            |p: Seq<u8>|
                crate::treeshake::reaches(
                    graph_of(ws, ps, cfg, order),
                    seq![cfg.entry_file@],
                    p,
                ),
        );
    }
    assert(assembly.no_duplicates());
    if cfg.code_splitting {
        crate::treeshake::lemma_filter_nodup(assembly, |p: Seq<u8>| !is_chunkable(cfg, p));
    }
}

} // verus!
