//! Recognition of import references in module content.
//!
//! Each file kind has one import-reference form: `import "p";` for
//! JavaScript, `@import "p";` for CSS, `<link rel="import" href="p">` for
//! HTML and `"$import": "p"` for JSON. The scanner finds every
//! non-overlapping occurrence from left to right; its result is pinned to
//! the recursive specification `spec_scan`.

use vstd::prelude::*;

use crate::bytesutil::{find_byte, match_at, slice_of, spec_find_byte, starts_with_at};

verus! {

/// The kind of a module file, which decides its import syntax.
#[derive(Clone, Copy, PartialEq, Eq, Structural, Debug)]
pub enum FileKind {
    Js,
    Css,
    Html,
    Json,
}

/// The bytes that introduce an import reference for `kind`, up to and
/// including the opening quote.
pub open spec fn prefix_of(kind: FileKind) -> Seq<u8> {
    match kind {
        FileKind::Js => seq![105u8, 109u8, 112u8, 111u8, 114u8, 116u8, 32u8, 34u8],
        FileKind::Css => seq![64u8, 105u8, 109u8, 112u8, 111u8, 114u8, 116u8, 32u8, 34u8],
        FileKind::Html => seq![60u8, 108u8, 105u8, 110u8, 107u8, 32u8, 114u8, 101u8, 108u8, 61u8, 34u8, 105u8, 109u8, 112u8, 111u8, 114u8, 116u8, 34u8, 32u8, 104u8, 114u8, 101u8, 102u8, 61u8, 34u8],
        FileKind::Json => seq![34u8, 36u8, 105u8, 109u8, 112u8, 111u8, 114u8, 116u8, 34u8, 58u8, 32u8, 34u8],
    }
}

/// The bytes that close an import reference for `kind`, starting with the
/// closing quote.
pub open spec fn suffix_of(kind: FileKind) -> Seq<u8> {
    match kind {
        FileKind::Js => seq![34u8, 59u8],
        FileKind::Css => seq![34u8, 59u8],
        FileKind::Html => seq![34u8, 62u8],
        FileKind::Json => seq![34u8],
    }
}

/// Every prefix is nonempty and every suffix starts with the quote byte.
pub proof fn lemma_patterns(kind: FileKind)
    ensures
        prefix_of(kind).len() > 0,
        suffix_of(kind).len() > 0,
        suffix_of(kind)[0] == 34u8,
{
    match kind {
        FileKind::Js => {},
        FileKind::Css => {},
        FileKind::Html => {},
        FileKind::Json => {},
    }
}

/// Builds the prefix bytes of `kind`.
fn prefix_bytes(kind: FileKind) -> (v: Vec<u8>)
    ensures
        v@ == prefix_of(kind),
{
    let mut v: Vec<u8> = Vec::new();
    match kind {
        FileKind::Js => {
        v.push(105);
        v.push(109);
        v.push(112);
        v.push(111);
        v.push(114);
        v.push(116);
        v.push(32);
        v.push(34);
        },
        FileKind::Css => {
        v.push(64);
        v.push(105);
        v.push(109);
        v.push(112);
        v.push(111);
        v.push(114);
        v.push(116);
        v.push(32);
        v.push(34);
        },
        FileKind::Html => {
        v.push(60);
        v.push(108);
        v.push(105);
        v.push(110);
        v.push(107);
        v.push(32);
        v.push(114);
        v.push(101);
        v.push(108);
        v.push(61);
        v.push(34);
        v.push(105);
        v.push(109);
        v.push(112);
        v.push(111);
        v.push(114);
        v.push(116);
        v.push(34);
        v.push(32);
        v.push(104);
        v.push(114);
        v.push(101);
        v.push(102);
        v.push(61);
        v.push(34);
        },
        FileKind::Json => {
        v.push(34);
        v.push(36);
        v.push(105);
        v.push(109);
        v.push(112);
        v.push(111);
        v.push(114);
        v.push(116);
        v.push(34);
        v.push(58);
        v.push(32);
        v.push(34);
        },
    }
    proof {
        assert(v@ =~= prefix_of(kind));
    }
    v
}

/// Builds the suffix bytes of `kind`.
fn suffix_bytes(kind: FileKind) -> (v: Vec<u8>)
    ensures
        v@ == suffix_of(kind),
{
    let mut v: Vec<u8> = Vec::new();
    match kind {
        FileKind::Js => {
        v.push(34);
        v.push(59);
        },
        FileKind::Css => {
        v.push(34);
        v.push(59);
        },
        FileKind::Html => {
        v.push(34);
        v.push(62);
        },
        FileKind::Json => {
        v.push(34);
        },
    }
    proof {
        assert(v@ =~= suffix_of(kind));
    }
    v
}

/// Whether `c` ends with `s`.
pub open spec fn ends_with(c: Seq<u8>, s: Seq<u8>) -> bool {
    c.len() >= s.len() && c.subrange(c.len() - s.len(), c.len() as int) == s
}

/// The file kind a path maps to, decided by its extension.
pub open spec fn spec_kind_of(path: Seq<u8>) -> Option<FileKind> {
    if ends_with(path, seq![46u8, 106u8, 115u8]) {
        Some(FileKind::Js)
    } else if ends_with(path, seq![46u8, 99u8, 115u8, 115u8]) {
        Some(FileKind::Css)
    } else if ends_with(path, seq![46u8, 104u8, 116u8, 109u8, 108u8]) {
        Some(FileKind::Html)
    } else if ends_with(path, seq![46u8, 106u8, 115u8, 111u8, 110u8]) {
        Some(FileKind::Json)
    } else {
        None
    }
}

/// Decides whether `c` ends with the bytes in `s`.
fn ends_with_bytes(c: &Vec<u8>, s: &Vec<u8>) -> (r: bool)
    ensures
        r == ends_with(c@, s@),
{
    if s.len() > c.len() {
        return false;
    }
    starts_with_at(c, c.len() - s.len(), s)
}

/// Classifies a path into a file kind by its extension.
pub fn kind_of_path(path: &Vec<u8>) -> (r: Option<FileKind>)
    ensures
        r == spec_kind_of(path@),
{
    let mut ext: Vec<u8> = Vec::new();
        ext.push(46);
        ext.push(106);
        ext.push(115);
    proof {
        assert(ext@ =~= seq![46u8, 106u8, 115u8]);
    }
    if ends_with_bytes(path, &ext) {
        return Some(FileKind::Js);
    }
    let mut ext: Vec<u8> = Vec::new();
        ext.push(46);
        ext.push(99);
        ext.push(115);
        ext.push(115);
    proof {
        assert(ext@ =~= seq![46u8, 99u8, 115u8, 115u8]);
    }
    if ends_with_bytes(path, &ext) {
        return Some(FileKind::Css);
    }
    let mut ext: Vec<u8> = Vec::new();
        ext.push(46);
        ext.push(104);
        ext.push(116);
        ext.push(109);
        ext.push(108);
    proof {
        assert(ext@ =~= seq![46u8, 104u8, 116u8, 109u8, 108u8]);
    }
    if ends_with_bytes(path, &ext) {
        return Some(FileKind::Html);
    }
    let mut ext: Vec<u8> = Vec::new();
        ext.push(46);
        ext.push(106);
        ext.push(115);
        ext.push(111);
        ext.push(110);
    proof {
        assert(ext@ =~= seq![46u8, 106u8, 115u8, 111u8, 110u8]);
    }
    if ends_with_bytes(path, &ext) {
        return Some(FileKind::Json);
    }
    None
}

/// The position of the closing quote of a reference whose prefix starts at
/// `i`, if one exists.
pub open spec fn close_quote(c: Seq<u8>, kind: FileKind, i: int) -> Option<int> {
    spec_find_byte(c, i + prefix_of(kind).len(), 34u8)
}

/// Whether a complete import reference of `kind` starts at position `i`.
pub open spec fn is_ref_at(c: Seq<u8>, kind: FileKind, i: int) -> bool {
    match_at(c, i, prefix_of(kind)) && match close_quote(c, kind, i) {
        Some(q) => match_at(c, q, suffix_of(kind)),
        None => false,
    }
}

/// The position one past the reference starting at `i`.
pub open spec fn ref_end(c: Seq<u8>, kind: FileKind, i: int) -> int {
    close_quote(c, kind, i)->Some_0 + suffix_of(kind).len()
}

/// The quoted path of the reference starting at `i`.
pub open spec fn ref_target(c: Seq<u8>, kind: FileKind, i: int) -> Seq<u8> {
    c.subrange(i + prefix_of(kind).len(), close_quote(c, kind, i)->Some_0)
}

/// A found byte lies at or after the start of the search and inside the
/// content, and carries the searched byte.
pub proof fn lemma_find_byte_bounds(c: Seq<u8>, from: int, b: u8)
    requires
        0 <= from <= c.len(),
    ensures
        match spec_find_byte(c, from, b) {
            Some(q) => from <= q < c.len() && c[q] == b,
            None => true,
        },
    decreases c.len() - from,
{
    if from < c.len() && c[from] != b {
        lemma_find_byte_bounds(c, from + 1, b);
    }
}

/// One import reference found in a module's content: the byte span of the
/// whole reference and the quoted target path.
pub struct ImportRef {
    pub start: usize,
    pub end: usize,
    pub target: Vec<u8>,
}

/// The mathematical view of an import reference.
#[verifier::ext_equal]
pub struct RefModel {
    pub start: int,
    pub end: int,
    pub target: Seq<u8>,
}

impl ImportRef {
    /// The reference's mathematical view.
    pub open spec fn model(self) -> RefModel {
        RefModel { start: self.start as int, end: self.end as int, target: self.target@ }
    }
}

/// The views of a list of references.
pub open spec fn ref_models(s: Seq<ImportRef>) -> Seq<RefModel> {
    s.map_values(|r: ImportRef| r.model())
}

/// All import references of `kind` in `c` from position `i` on, found
/// left to right without overlap.
pub open spec fn spec_scan(c: Seq<u8>, kind: FileKind, i: int) -> Seq<RefModel>
    decreases c.len() - i
        when 0 <= i <= c.len()
        via spec_scan_dec
{
    if i >= c.len() {
        Seq::empty()
    } else if is_ref_at(c, kind, i) {
        seq![
            RefModel { start: i, end: ref_end(c, kind, i), target: ref_target(c, kind, i) },
        ] + spec_scan(c, kind, ref_end(c, kind, i))
    } else {
        spec_scan(c, kind, i + 1)
    }
}

#[via_fn]
proof fn spec_scan_dec(c: Seq<u8>, kind: FileKind, i: int) {
    if i < c.len() && is_ref_at(c, kind, i) {
        lemma_patterns(kind);
        lemma_find_byte_bounds(c, i + prefix_of(kind).len(), 34u8);
    }
}

/// The span and target of a reference at `i` lie inside the content.
pub proof fn lemma_ref_bounds(c: Seq<u8>, kind: FileKind, i: int)
    requires
        0 <= i <= c.len(),
        is_ref_at(c, kind, i),
    ensures
        i < ref_end(c, kind, i) <= c.len(),
        i + prefix_of(kind).len() <= close_quote(c, kind, i)->Some_0,
{
    lemma_patterns(kind);
    lemma_find_byte_bounds(c, i + prefix_of(kind).len(), 34u8);
}

/// Finds every import reference of `kind` in `content`, in order of
/// appearance.
pub fn scan_imports(content: &Vec<u8>, kind: FileKind) -> (r: Vec<ImportRef>)
    ensures
        ref_models(r@) == spec_scan(content@, kind, 0),
{
    let ghost c = content@;
    let pre = prefix_bytes(kind);
    let suf = suffix_bytes(kind);
    proof {
        lemma_patterns(kind);
    }
    let mut out: Vec<ImportRef> = Vec::new();
    let mut i: usize = 0;
    proof {
        assert(ref_models(out@) =~= Seq::<RefModel>::empty());
        assert(spec_scan(c, kind, 0) =~= ref_models(out@) + spec_scan(c, kind, 0));
    }
    while i < content.len()
        invariant
            0 <= i <= c.len(),
            spec_scan(c, kind, 0) == ref_models(out@) + spec_scan(c, kind, i as int),
        decreases c.len() - i,
    {
        let mut advanced = false;
        if starts_with_at(content, i, &pre) {
            let qopt = find_byte(content, i + pre.len(), 34u8);
            proof {
                lemma_find_byte_bounds(c, i + prefix_of(kind).len(), 34u8);
            }
            match qopt {
                Some(q) => {
                    if starts_with_at(content, q, &suf) {
                        let end = q + suf.len();
                        let target = slice_of(content, i + pre.len(), q);
                        let ghost prev = ref_models(out@);
                        let ghost rm = RefModel {
                            start: i as int,
                            end: ref_end(c, kind, i as int),
                            target: ref_target(c, kind, i as int),
                        };
                        proof {
                            assert(is_ref_at(c, kind, i as int));
                            assert(ref_end(c, kind, i as int) == end);
                            assert(ref_target(c, kind, i as int) == target@);
                        }
                        out.push(ImportRef { start: i, end, target });
                        proof {
                            assert(ref_models(out@) =~= prev.push(rm));
                            assert(spec_scan(c, kind, i as int) =~= seq![rm] + spec_scan(
                                c,
                                kind,
                                end as int,
                            ));
                            assert((prev + (seq![rm] + spec_scan(c, kind, end as int))) =~= (
                            prev.push(rm) + spec_scan(c, kind, end as int)));
                        }
                        i = end;
                        advanced = true;
                    }
                },
                None => {},
            }
        }
        if !advanced {
            proof {
                assert(!is_ref_at(c, kind, i as int));
                assert(spec_scan(c, kind, i as int) == spec_scan(c, kind, i + 1));
            }
            i = i + 1;
        }
    }
    proof {
        assert(spec_scan(c, kind, c.len() as int) =~= Seq::<RefModel>::empty());
        assert(ref_models(out@) + spec_scan(c, kind, c.len() as int) =~= ref_models(out@));
    }
    out
}

} // verus!
