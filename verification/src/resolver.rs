//! The import resolver: turns an import reference and its referencing
//! module into an absolute module identity.
//!
//! Paths are workspace-relative, `/`-separated byte strings. Relative
//! references resolve against the referencing module's parent directory,
//! bare references against a configured search path. A reference that
//! normalizes outside the workspace root is rejected; one whose resolved
//! path does not exist is retried with each configured fallback extension
//! in order, and fails as not found when none exists. Resolution reads no
//! shared state: the set of existing files is an explicit argument.

use vstd::prelude::*;

use crate::bytesutil::{clone_bytes, list_contains, opt_view, slice_of, views};
use crate::plugin::{chain_resolve, Plugin, PluginManager};

verus! {

/// Why a reference failed to resolve.
#[derive(Clone, Copy, PartialEq, Eq, Structural, Debug)]
pub enum ResolveError {
    /// No candidate path exists, even after the fallback extensions.
    NotFound,
    /// The reference normalizes outside the workspace root.
    Rejected,
}

/// The path separator.
pub open spec fn slash() -> u8 {
    47u8
}

/// The `/`-separated segments of a path. An empty path has one empty
/// segment.
pub open spec fn split_path(p: Seq<u8>) -> Seq<Seq<u8>>
    decreases p.len()
        via split_path_dec
{
    match crate::bytesutil::spec_find_byte(p, 0, slash()) {
        None => seq![p],
        Some(k) => seq![p.subrange(0, k)] + split_path(p.subrange(k + 1, p.len() as int)),
    }
}

#[via_fn]
proof fn split_path_dec(p: Seq<u8>) {
    crate::scan::lemma_find_byte_bounds(p, 0, slash());
}

/// Resolves `.` and `..` segments left to right with a stack; `None` when
/// a `..` would climb above the root. Empty and `.` segments are dropped.
pub open spec fn norm_segs(segs: Seq<Seq<u8>>) -> Option<Seq<Seq<u8>>>
    decreases segs.len(),
{
    if segs.len() == 0 {
        Some(Seq::empty())
    } else {
        match norm_segs(segs.drop_last()) {
            None => None,
            Some(st) => {
                let s = segs.last();
                if s =~= Seq::<u8>::empty() || s =~= seq![46u8] {
                    Some(st)
                } else if s =~= seq![46u8, 46u8] {
                    if st.len() == 0 {
                        None
                    } else {
                        Some(st.drop_last())
                    }
                } else {
                    Some(st.push(s))
                }
            },
        }
    }
}

/// Joins segments with `/`.
pub open spec fn join_segs(segs: Seq<Seq<u8>>) -> Seq<u8>
    decreases segs.len(),
{
    if segs.len() == 0 {
        Seq::empty()
    } else if segs.len() == 1 {
        segs.first()
    } else {
        join_segs(segs.drop_last()) + seq![slash()] + segs.last()
    }
}

/// The normalized form of `p`: its segments with `.`, `..` and empty
/// segments resolved, joined by `/`; `None` when `p` escapes the root.
pub open spec fn spec_normalize(p: Seq<u8>) -> Option<Seq<u8>> {
    match norm_segs(split_path(p)) {
        None => None,
        Some(st) => Some(join_segs(st)),
    }
}

/// The directory part of `p`: everything before the final `/`, empty when
/// `p` has no `/`.
pub open spec fn spec_parent_dir(p: Seq<u8>) -> Seq<u8> {
    join_segs(split_path(p).drop_last())
}

/// `dir` and `rel` joined by a `/`; just `rel` when `dir` is empty.
pub open spec fn spec_join(dir: Seq<u8>, rel: Seq<u8>) -> Seq<u8> {
    if dir.len() == 0 {
        rel
    } else {
        dir + seq![slash()] + rel
    }
}

/// Whether the reference is relative: it starts with `./` or `../`.
pub open spec fn is_relative(r: Seq<u8>) -> bool {
    crate::bytesutil::match_at(r, 0, seq![46u8, slash()]) || crate::bytesutil::match_at(
        r,
        0,
        seq![46u8, 46u8, slash()],
    )
}

/// `p` with `.` and the extension appended.
pub open spec fn with_ext(p: Seq<u8>, ext: Seq<u8>) -> Seq<u8> {
    p + seq![46u8] + ext
}

/// The first fallback-extension candidate that exists, in the configured
/// order.
pub open spec fn spec_alternate(p: Seq<u8>, exts: Seq<Seq<u8>>, files: Seq<Seq<u8>>) -> Option<
    Seq<u8>,
>
    decreases exts.len(),
{
    if exts.len() == 0 {
        None
    } else if files.contains(with_ext(p, exts.first())) {
        Some(with_ext(p, exts.first()))
    } else {
        spec_alternate(p, exts.drop_first(), files)
    }
}

/// What resolution answers, given the resolver-override hook's answer.
/// The hook wins outright; otherwise the reference is joined to its base,
/// normalized (rejection on escape), and checked for existence, with the
/// fallback extensions tried in order.
pub open spec fn spec_resolve(
    hook: Option<Seq<u8>>,
    base: Seq<u8>,
    reference: Seq<u8>,
    search_path: Seq<u8>,
    exts: Seq<Seq<u8>>,
    files: Seq<Seq<u8>>,
) -> Result<Seq<u8>, ResolveError> {
    match hook {
        Some(p) => Ok(p),
        None => {
            let raw = if is_relative(reference) {
                spec_join(spec_parent_dir(base), reference)
            } else {
                spec_join(search_path, reference)
            };
            match spec_normalize(raw) {
                None => Err(ResolveError::Rejected),
                Some(p) => if files.contains(p) {
                    Ok(p)
                } else {
                    match spec_alternate(p, exts, files) {
                        Some(c) => Ok(c),
                        None => Err(ResolveError::NotFound),
                    }
                },
            }
        },
    }
}

/// Splits a path into its `/`-separated segments.
fn split_bytes(p: &Vec<u8>) -> (r: Vec<Vec<u8>>)
    ensures
        views(r@) == split_path(p@),
        r@.len() > 0,
    decreases p@.len(),
{
    proof {
        crate::scan::lemma_find_byte_bounds(p@, 0, slash());
    }
    match crate::bytesutil::find_byte(p, 0, 47) {
        None => {
            let mut out: Vec<Vec<u8>> = Vec::new();
            out.push(clone_bytes(p));
            proof {
                assert(views(out@) =~= seq![p@]);
            }
            out
        },
        Some(k) => {
            let n = p.len();
            proof {
                assert(k < n);
            }
            let head = slice_of(p, 0, k);
            let tail = slice_of(p, k + 1, n);
            let rest = split_bytes(&tail);
            let mut out: Vec<Vec<u8>> = Vec::new();
            out.push(head);
            let mut j: usize = 0;
            proof {
                assert(views(out@) =~= seq![p@.subrange(0, k as int)] + views(rest@).take(0));
            }
            while j < rest.len()
                invariant
                    0 <= j <= views(rest@).len(),
                    views(out@) == seq![p@.subrange(0, k as int)] + views(rest@).take(j as int),
                decreases views(rest@).len() - j,
            {
                let ghost prev = views(out@);
                out.push(clone_bytes(&rest[j]));
                proof {
                    assert(views(out@) =~= prev.push(views(rest@)[j as int]));
                    assert(views(out@) =~= seq![p@.subrange(0, k as int)] + views(rest@).take(
                        j + 1,
                    ));
                }
                j = j + 1;
            }
            proof {
                assert(views(rest@).take(views(rest@).len() as int) =~= views(rest@));
                assert(views(out@) =~= split_path(p@));
            }
            out
        },
    }
}

/// Whether the segment is empty or `.`.
fn seg_skippable(s: &Vec<u8>) -> (r: bool)
    ensures
        r == (s@ =~= Seq::<u8>::empty() || s@ =~= seq![46u8]),
{
    if s.len() == 0 {
        true
    } else if s.len() == 1 && s[0] == 46 {
        proof {
            assert(s@ =~= seq![46u8]);
        }
        true
    } else {
        proof {
            if s@ =~= seq![46u8] {
                assert(s@.len() == 1 && s@[0] == 46u8);
            }
        }
        false
    }
}

/// Whether the segment is `..`.
fn seg_is_up(s: &Vec<u8>) -> (r: bool)
    ensures
        r == (s@ =~= seq![46u8, 46u8]),
{
    if s.len() == 2 && s[0] == 46 && s[1] == 46 {
        proof {
            assert(s@ =~= seq![46u8, 46u8]);
        }
        true
    } else {
        proof {
            if s@ =~= seq![46u8, 46u8] {
                assert(s@.len() == 2 && s@[0] == 46u8 && s@[1] == 46u8);
            }
        }
        false
    }
}

/// Once a prefix of the segments escapes the root, the whole list does.
proof fn lemma_norm_none_sticks(segs: Seq<Seq<u8>>, i: int)
    requires
        0 <= i <= segs.len(),
        norm_segs(segs.take(i)) is None,
    ensures
        norm_segs(segs) is None,
    decreases segs.len() - i,
{
    if i == segs.len() {
        assert(segs.take(i) =~= segs);
    } else {
        assert(segs.take(i + 1).drop_last() =~= segs.take(i));
        lemma_norm_none_sticks(segs, i + 1);
    }
}

/// Joins segments with `/`.
fn join_bytes(segs: &Vec<Vec<u8>>) -> (r: Vec<u8>)
    ensures
        r@ == join_segs(views(segs@)),
{
    let mut out: Vec<u8> = Vec::new();
    let mut i: usize = 0;
    proof {
        assert(views(segs@).take(0) =~= Seq::<Seq<u8>>::empty());
        assert(out@ =~= join_segs(views(segs@).take(0)));
    }
    while i < segs.len()
        invariant
            0 <= i <= views(segs@).len(),
            out@ == join_segs(views(segs@).take(i as int)),
        decreases views(segs@).len() - i,
    {
        proof {
            assert(views(segs@).take(i + 1).drop_last() =~= views(segs@).take(i as int));
            assert(views(segs@).take(i + 1).last() == views(segs@)[i as int]);
        }
        if i > 0 {
            out.push(47);
        }
        crate::bytesutil::append_bytes(&mut out, &segs[i]);
        proof {
            if i == 0 {
                assert(views(segs@).take(1).first() == views(segs@)[0]);
                assert(out@ =~= join_segs(views(segs@).take(1)));
            } else {
                assert(out@ =~= join_segs(views(segs@).take(i as int)) + seq![slash()] + views(
                    segs@,
                )[i as int]);
            }
        }
        i = i + 1;
    }
    proof {
        assert(views(segs@).take(views(segs@).len() as int) =~= views(segs@));
    }
    out
}

/// Normalizes a path: resolves `.`, `..` and empty segments, and reports
/// `None` when the path escapes the workspace root.
pub fn normalize_path(p: &Vec<u8>) -> (r: Option<Vec<u8>>)
    ensures
        opt_view(r) == spec_normalize(p@),
{
    let segs = split_bytes(p);
    let ghost sv = views(segs@);
    let mut stack: Vec<Vec<u8>> = Vec::new();
    let mut i: usize = 0;
    proof {
        assert(sv.take(0) =~= Seq::<Seq<u8>>::empty());
        assert(norm_segs(sv.take(0)) == Some(views(stack@)));
    }
    while i < segs.len()
        invariant
            0 <= i <= sv.len(),
            norm_segs(sv.take(i as int)) == Some(views(stack@)),
        decreases sv.len() - i,
    {
        proof {
            assert(sv.take(i + 1).drop_last() =~= sv.take(i as int));
            assert(sv.take(i + 1).last() == sv[i as int]);
        }
        if seg_skippable(&segs[i]) {
        } else if seg_is_up(&segs[i]) {
            if stack.len() == 0 {
                proof {
                    lemma_norm_none_sticks(sv, i + 1);
                }
                return None;
            }
            let ghost prev = views(stack@);
            let _ = stack.pop();
            proof {
                assert(views(stack@) =~= prev.drop_last());
            }
        } else {
            let ghost prev = views(stack@);
            stack.push(clone_bytes(&segs[i]));
            proof {
                assert(views(stack@) =~= prev.push(sv[i as int]));
            }
        }
        i = i + 1;
    }
    proof {
        assert(sv.take(sv.len() as int) =~= sv);
    }
    Some(join_bytes(&stack))
}

/// The directory part of a path: everything before the final `/`.
pub fn parent_dir(p: &Vec<u8>) -> (r: Vec<u8>)
    ensures
        r@ == spec_parent_dir(p@),
{
    let mut segs = split_bytes(p);
    let ghost sv = views(segs@);
    let _ = segs.pop();
    proof {
        assert(views(segs@) =~= sv.drop_last());
    }
    join_bytes(&segs)
}

/// Joins a directory and a relative path with a `/`.
pub fn join_path(dir: &Vec<u8>, rel: &Vec<u8>) -> (r: Vec<u8>)
    ensures
        r@ == spec_join(dir@, rel@),
{
    if dir.len() == 0 {
        clone_bytes(rel)
    } else {
        let mut out = clone_bytes(dir);
        out.push(47);
        crate::bytesutil::append_bytes(&mut out, rel);
        proof {
            assert(out@ =~= dir@ + seq![slash()] + rel@);
        }
        out
    }
}

/// Whether the reference starts with `./` or `../`.
fn reference_is_relative(r: &Vec<u8>) -> (b: bool)
    ensures
        b == is_relative(r@),
{
    let mut dot_slash: Vec<u8> = Vec::new();
    dot_slash.push(46);
    dot_slash.push(47);
    proof {
        assert(dot_slash@ =~= seq![46u8, slash()]);
    }
    let mut up_slash: Vec<u8> = Vec::new();
    up_slash.push(46);
    up_slash.push(46);
    up_slash.push(47);
    proof {
        assert(up_slash@ =~= seq![46u8, 46u8, slash()]);
    }
    let a = crate::bytesutil::starts_with_at(r, 0, &dot_slash);
    let b = crate::bytesutil::starts_with_at(r, 0, &up_slash);
    a || b
}

/// Tries each fallback extension in order and returns the first candidate
/// that exists.
pub fn try_alternate_resolutions(
    path: &Vec<u8>,
    extensions: &Vec<Vec<u8>>,
    existing: &Vec<Vec<u8>>,
) -> (r: Option<Vec<u8>>)
    ensures
        opt_view(r) == spec_alternate(path@, views(extensions@), views(existing@)),
{
    let ghost exts = views(extensions@);
    let mut i: usize = 0;
    proof {
        assert(exts.skip(0) =~= exts);
    }
    while i < extensions.len()
        invariant
            0 <= i <= exts.len(),
            spec_alternate(path@, exts, views(existing@)) == spec_alternate(
                path@,
                exts.skip(i as int),
                views(existing@),
            ),
        decreases exts.len() - i,
    {
        proof {
            assert(exts.skip(i as int).first() == exts[i as int]);
            assert(exts.skip(i as int).drop_first() =~= exts.skip(i + 1));
        }
        let mut candidate = clone_bytes(path);
        candidate.push(46);
        crate::bytesutil::append_bytes(&mut candidate, &extensions[i]);
        proof {
            assert(candidate@ =~= with_ext(path@, exts[i as int]));
        }
        if list_contains(existing, &candidate) {
            return Some(candidate);
        }
        i = i + 1;
    }
    proof {
        assert(exts.skip(exts.len() as int) =~= Seq::<Seq<u8>>::empty());
    }
    None
}

/// Resolves an import reference found in `base` to a module identity.
/// The registered resolver-override hooks are consulted first; their
/// answer, if any, is returned as is. Otherwise the reference resolves
/// against the parent directory of `base` (relative references) or the
/// search path (bare references), is normalized with a traversal-safety
/// check, and falls back to the configured extensions when the literal
/// path does not exist among `existing`.
pub fn resolve_path<P: Plugin>(
    base: &Vec<u8>,
    import_path: &Vec<u8>,
    plugins: &PluginManager<P>,
    search_path: &Vec<u8>,
    fallback_extensions: &Vec<Vec<u8>>,
    existing: &Vec<Vec<u8>>,
) -> (r: Result<Vec<u8>, ResolveError>)
    ensures
        match r {
            Ok(p) => spec_resolve(
                chain_resolve(plugins.model(), import_path@),
                base@,
                import_path@,
                search_path@,
                views(fallback_extensions@),
                views(existing@),
            ) == Ok::<Seq<u8>, ResolveError>(p@),
            Err(e) => spec_resolve(
                chain_resolve(plugins.model(), import_path@),
                base@,
                import_path@,
                search_path@,
                views(fallback_extensions@),
                views(existing@),
            ) == Err::<Seq<u8>, ResolveError>(e),
        },
{
    let hook = plugins.resolve(import_path);
    match hook {
        Some(p) => Ok(p),
        None => {
            let raw = if reference_is_relative(import_path) {
                let dir = parent_dir(base);
                join_path(&dir, import_path)
            } else {
                join_path(search_path, import_path)
            };
            let normalized = normalize_path(&raw);
            match normalized {
                None => Err(ResolveError::Rejected),
                Some(p) => {
                    if list_contains(existing, &p) {
                        Ok(p)
                    } else {
                        match try_alternate_resolutions(&p, fallback_extensions, existing) {
                            Some(c) => Ok(c),
                            None => Err(ResolveError::NotFound),
                        }
                    }
                },
            }
        },
    }
}

} // verus!
