//! Source maps: accumulation of position mappings during assembly, and
//! serialization of the version-3 JSON document.
//!
//! A mapping relates a position in a generated file to a position in an
//! original source. Mappings are grouped by generated line; within a
//! group they keep the order in which they were recorded. The serialized
//! document carries the format version, the output file name, the ordered
//! source paths, the embedded original contents in the same order, the
//! referenced names, and the serialized mapping string.

use vstd::prelude::*;

use crate::bytesutil::{append_bytes, dec_digits, usize_to_dec, views};

verus! {

/// One position correspondence between generated and original source.
#[derive(Clone, Copy, PartialEq, Eq, Structural, Debug)]
pub struct Mapping {
    pub original_line: usize,
    pub original_column: usize,
    pub generated_line: usize,
    pub generated_column: usize,
    pub name_index: Option<usize>,
}

/// The mathematical view of a mapping.
#[verifier::ext_equal]
pub struct MappingModel {
    pub original_line: int,
    pub original_column: int,
    pub generated_line: int,
    pub generated_column: int,
    pub name_index: Option<int>,
}

impl Mapping {
    /// The mapping's mathematical view.
    pub open spec fn model(self) -> MappingModel {
        MappingModel {
            original_line: self.original_line as int,
            original_column: self.original_column as int,
            generated_line: self.generated_line as int,
            generated_column: self.generated_column as int,
            name_index: match self.name_index {
                Some(n) => Some(n as int),
                None => None,
            },
        }
    }
}

/// The views of a list of mappings.
pub open spec fn mapping_models(s: Seq<Mapping>) -> Seq<MappingModel> {
    s.map_values(|m: Mapping| m.model())
}

/// Parts joined by a separator, which appears only between parts.
pub open spec fn joined(parts: Seq<Seq<u8>>, sep: Seq<u8>) -> Seq<u8>
    decreases parts.len(),
{
    if parts.len() == 0 {
        Seq::empty()
    } else if parts.len() == 1 {
        parts.first()
    } else {
        joined(parts.drop_last(), sep) + sep + parts.last()
    }
}

/// Joins byte-string parts with a one-byte separator.
pub fn join_with(parts: &Vec<Vec<u8>>, sep: u8) -> (r: Vec<u8>)
    ensures
        r@ == joined(views(parts@), seq![sep]),
{
    let ghost pv = views(parts@);
    let mut out: Vec<u8> = Vec::new();
    let mut i: usize = 0;
    proof {
        assert(pv.take(0) =~= Seq::<Seq<u8>>::empty());
        assert(out@ =~= joined(pv.take(0), seq![sep]));
    }
    while i < parts.len()
        invariant
            0 <= i <= pv.len(),
            out@ == joined(pv.take(i as int), seq![sep]),
        decreases pv.len() - i,
    {
        proof {
            assert(pv.take(i + 1).drop_last() =~= pv.take(i as int));
            assert(pv.take(i + 1).last() == pv[i as int]);
        }
        if i > 0 {
            out.push(sep);
        }
        append_bytes(&mut out, &parts[i]);
        proof {
            if i == 0 {
                assert(pv.take(1).first() == pv[0]);
                assert(out@ =~= joined(pv.take(1), seq![sep]));
            } else {
                assert(out@ =~= joined(pv.take(i as int), seq![sep]) + seq![sep] + pv[i as int]);
            }
        }
        i = i + 1;
    }
    proof {
        assert(pv.take(pv.len() as int) =~= pv);
    }
    out
}

/// The compact text of one mapping: original line, `:`, original column,
/// `,`, generated column, `,`, and the name index (0 when absent).
pub open spec fn seg_text(m: MappingModel) -> Seq<u8> {
    dec_digits(m.original_line as nat) + seq![58u8] + dec_digits(m.original_column as nat) + seq![
        44u8,
    ] + dec_digits(m.generated_column as nat) + seq![44u8] + dec_digits(
        (match m.name_index {
            Some(n) => n,
            None => 0,
        }) as nat,
    )
}

/// Renders one mapping segment.
fn seg_bytes(m: &Mapping) -> (r: Vec<u8>)
    ensures
        r@ == seg_text(m.model()),
{
    let mut out = usize_to_dec(m.original_line);
    out.push(58);
    let oc = usize_to_dec(m.original_column);
    append_bytes(&mut out, &oc);
    out.push(44);
    let gc = usize_to_dec(m.generated_column);
    append_bytes(&mut out, &gc);
    out.push(44);
    let ni = match m.name_index {
        Some(n) => usize_to_dec(n),
        None => usize_to_dec(0),
    };
    append_bytes(&mut out, &ni);
    proof {
        assert(out@ =~= seg_text(m.model()));
    }
    out
}

/// The segments of the mappings on generated line `l`, in recorded order.
pub open spec fn line_segs(ms: Seq<MappingModel>, l: int) -> Seq<Seq<u8>> {
    ms.filter(|m: MappingModel| m.generated_line == l).map_values(|m: MappingModel| seg_text(m))
}

/// The largest generated line among the mappings, 0 when there are none.
pub open spec fn max_line(ms: Seq<MappingModel>) -> int
    decreases ms.len(),
{
    if ms.len() == 0 {
        0
    } else {
        let rest = max_line(ms.drop_last());
        if ms.last().generated_line > rest {
            ms.last().generated_line
        } else {
            rest
        }
    }
}

/// The serialized mapping string: one group per generated line from 0 to
/// the largest, groups joined by `;`, segments within a group joined by
/// `,`. Empty when no mapping was recorded.
pub open spec fn mappings_text(ms: Seq<MappingModel>) -> Seq<u8> {
    if ms.len() == 0 {
        Seq::empty()
    } else {
        joined(
            Seq::new((max_line(ms) + 1) as nat, |l: int| joined(line_segs(ms, l), seq![44u8])),
            seq![59u8],
        )
    }
}

/// Builds the segment list for one generated line.
fn line_seg_bytes(mappings: &Vec<Mapping>, l: usize) -> (r: Vec<Vec<u8>>)
    ensures
        views(r@) == line_segs(mapping_models(mappings@), l as int),
{
    proof {
        reveal(Seq::filter);
    }
    let ghost ms = mapping_models(mappings@);
    let ghost pred = |m: MappingModel| m.generated_line == l as int;
    let mut out: Vec<Vec<u8>> = Vec::new();
    let mut i: usize = 0;
    proof {
        assert(ms.take(0) =~= Seq::<MappingModel>::empty());
        assert(views(out@) =~= ms.take(0).filter(pred).map_values(
            |m: MappingModel| seg_text(m),
        ));
    }
    while i < mappings.len()
        invariant
            0 <= i <= ms.len(),
            views(out@) == ms.take(i as int).filter(pred).map_values(
                |m: MappingModel| seg_text(m),
            ),
        decreases ms.len() - i,
    {
        proof {
            assert(ms.take(i + 1).drop_last() =~= ms.take(i as int));
            assert(ms.take(i + 1).last() == ms[i as int]);
        }
        if mappings[i].generated_line == l {
            let ghost prev = views(out@);
            let seg = seg_bytes(&mappings[i]);
            out.push(seg);
            proof {
                assert(views(out@) =~= prev.push(seg_text(ms[i as int])));
                assert(ms.take(i + 1).filter(pred) =~= ms.take(i as int).filter(pred).push(
                    ms[i as int],
                ));
                assert(views(out@) =~= ms.take(i + 1).filter(pred).map_values(
                    |m: MappingModel| seg_text(m),
                ));
            }
        } else {
            proof {
                assert(ms.take(i + 1).filter(pred) =~= ms.take(i as int).filter(pred));
            }
        }
        i = i + 1;
    }
    proof {
        assert(ms.take(ms.len() as int) =~= ms);
    }
    out
}

/// Serializes the mapping list: groups by generated line in ascending
/// order, the recorded order kept within each group.
pub fn generate_mappings_string(mappings: &Vec<Mapping>) -> (r: Vec<u8>)
    ensures
        r@ == mappings_text(mapping_models(mappings@)),
{
    let ghost ms = mapping_models(mappings@);
    if mappings.len() == 0 {
        let out: Vec<u8> = Vec::new();
        proof {
            assert(out@ =~= mappings_text(ms));
        }
        return out;
    }
    let mut mx: usize = 0;
    let mut i: usize = 0;
    proof {
        assert(ms.take(0) =~= Seq::<MappingModel>::empty());
    }
    while i < mappings.len()
        invariant
            0 <= i <= ms.len(),
            mx == max_line(ms.take(i as int)),
        decreases ms.len() - i,
    {
        proof {
            assert(ms.take(i + 1).drop_last() =~= ms.take(i as int));
            assert(ms.take(i + 1).last() == ms[i as int]);
        }
        if mappings[i].generated_line > mx {
            mx = mappings[i].generated_line;
        }
        i = i + 1;
    }
    proof {
        assert(ms.take(ms.len() as int) =~= ms);
    }
    let ghost groups = Seq::new(
        (max_line(ms) + 1) as nat,
        |l: int| joined(line_segs(ms, l), seq![44u8]),
    );
    let mut parts: Vec<Vec<u8>> = Vec::new();
    let mut l: usize = 0;
    let mut finished = false;
    proof {
        assert(views(parts@) =~= groups.take(0));
    }
    while !finished
        invariant
            mx == max_line(ms),
            ms.len() > 0,
            groups == Seq::new(
                (max_line(ms) + 1) as nat,
                |k: int| joined(line_segs(ms, k), seq![44u8]),
            ),
            !finished ==> 0 <= l <= mx && views(parts@) == groups.take(l as int),
            finished ==> views(parts@) == groups,
        decreases (if finished {
            0int
        } else {
            mx - l + 1
        }),
    {
        let segs = line_seg_bytes(mappings, l);
        let group = join_with(&segs, 44);
        let ghost prev = views(parts@);
        parts.push(group);
        proof {
            assert(views(parts@) =~= prev.push(groups[l as int]));
            assert(views(parts@) =~= groups.take(l + 1));
        }
        if l == mx {
            finished = true;
            proof {
                assert(groups.take(mx + 1) =~= groups);
            }
        } else {
            l = l + 1;
        }
    }
    let out = join_with(&parts, 59);
    proof {
        assert(out@ == mappings_text(ms));
    }
    out
}

/// The JSON escape of one byte: quotes and backslashes are escaped,
/// common control bytes use their short forms, other control bytes the
/// `\u00XX` form, and everything else stands for itself.
pub open spec fn esc_byte(b: u8) -> Seq<u8> {
    if b == 34 {
        seq![92u8, 34u8]
    } else if b == 92 {
        seq![92u8, 92u8]
    } else if b == 10 {
        seq![92u8, 110u8]
    } else if b == 13 {
        seq![92u8, 114u8]
    } else if b == 9 {
        seq![92u8, 116u8]
    } else if b < 32 {
        seq![92u8, 117u8, 48u8, 48u8, hex_digit((b / 16) as nat), hex_digit((b % 16) as nat)]
    } else {
        seq![b]
    }
}

/// The lowercase hexadecimal digit for a value below 16.
pub open spec fn hex_digit(d: nat) -> u8 {
    if d < 10 {
        (48 + d) as u8
    } else {
        (87 + d) as u8
    }
}

/// The JSON escape of a byte string.
pub open spec fn json_escape(s: Seq<u8>) -> Seq<u8>
    decreases s.len(),
{
    if s.len() == 0 {
        Seq::empty()
    } else {
        json_escape(s.drop_last()) + esc_byte(s.last())
    }
}

/// A JSON string literal: the escaped bytes between double quotes.
pub open spec fn json_str(s: Seq<u8>) -> Seq<u8> {
    seq![34u8] + json_escape(s) + seq![34u8]
}

/// Renders a JSON string literal.
pub fn json_str_bytes(s: &Vec<u8>) -> (r: Vec<u8>)
    ensures
        r@ == json_str(s@),
{
    let mut out: Vec<u8> = Vec::new();
    out.push(34);
    let mut i: usize = 0;
    proof {
        assert(s@.take(0) =~= Seq::<u8>::empty());
        assert(out@ =~= seq![34u8] + json_escape(s@.take(0)));
    }
    while i < s.len()
        invariant
            0 <= i <= s@.len(),
            out@ == seq![34u8] + json_escape(s@.take(i as int)),
        decreases s@.len() - i,
    {
        proof {
            assert(s@.take(i + 1).drop_last() =~= s@.take(i as int));
            assert(s@.take(i + 1).last() == s@[i as int]);
        }
        let ghost prev = out@;
        let b = s[i];
        if b == 34 {
            out.push(92);
            out.push(34);
        } else if b == 92 {
            out.push(92);
            out.push(92);
        } else if b == 10 {
            out.push(92);
            out.push(110);
        } else if b == 13 {
            out.push(92);
            out.push(114);
        } else if b == 9 {
            out.push(92);
            out.push(116);
        } else if b < 32 {
            out.push(92);
            out.push(117);
            out.push(48);
            out.push(48);
            let hi = b / 16;
            let lo = b % 16;
            out.push(if hi < 10 {
                48 + hi
            } else {
                87 + hi
            });
            out.push(if lo < 10 {
                48 + lo
            } else {
                87 + lo
            });
        } else {
            out.push(b);
        }
        proof {
            assert(out@ =~= prev + esc_byte(s@[i as int]));
            assert(out@ =~= seq![34u8] + json_escape(s@.take(i + 1)));
        }
        i = i + 1;
    }
    out.push(34);
    proof {
        assert(s@.take(s@.len() as int) =~= s@);
        assert(out@ =~= json_str(s@));
    }
    out
}

/// A JSON array of string literals.
pub open spec fn json_str_arr(items: Seq<Seq<u8>>) -> Seq<u8> {
    seq![91u8] + joined(items.map_values(|s: Seq<u8>| json_str(s)), seq![44u8]) + seq![93u8]
}

/// Renders a JSON array of string literals.
pub fn json_str_arr_bytes(items: &Vec<Vec<u8>>) -> (r: Vec<u8>)
    ensures
        r@ == json_str_arr(views(items@)),
{
    let ghost iv = views(items@);
    let mut parts: Vec<Vec<u8>> = Vec::new();
    let mut i: usize = 0;
    proof {
        assert(views(parts@) =~= iv.take(0).map_values(|s: Seq<u8>| json_str(s)));
    }
    while i < items.len()
        invariant
            0 <= i <= iv.len(),
            views(parts@) == iv.take(i as int).map_values(|s: Seq<u8>| json_str(s)),
        decreases iv.len() - i,
    {
        let ghost prev = views(parts@);
        let lit = json_str_bytes(&items[i]);
        parts.push(lit);
        proof {
            assert(views(parts@) =~= prev.push(json_str(iv[i as int])));
            assert(iv.take(i + 1) =~= iv.take(i as int).push(iv[i as int]));
            assert(views(parts@) =~= iv.take(i + 1).map_values(|s: Seq<u8>| json_str(s)));
        }
        i = i + 1;
    }
    proof {
        assert(iv.take(iv.len() as int) =~= iv);
    }
    let body = join_with(&parts, 44);
    let mut out: Vec<u8> = Vec::new();
    out.push(91);
    append_bytes(&mut out, &body);
    out.push(93);
    proof {
        assert(out@ =~= json_str_arr(iv));
    }
    out
}

/// The opening of the document, version field included: `{"version":3`.
pub open spec fn version_part() -> Seq<u8> {
    seq![123u8, 34u8, 118u8, 101u8, 114u8, 115u8, 105u8, 111u8, 110u8, 34u8, 58u8, 51u8]
}

/// The file field: `,"file":` and the quoted name.
pub open spec fn file_part(file: Seq<u8>) -> Seq<u8> {
    seq![44u8, 34u8, 102u8, 105u8, 108u8, 101u8, 34u8, 58u8] + json_str(file)
}

/// The sources field: `,"sources":` and the array of paths.
pub open spec fn sources_part(sources: Seq<Seq<u8>>) -> Seq<u8> {
    seq![44u8, 34u8, 115u8, 111u8, 117u8, 114u8, 99u8, 101u8, 115u8, 34u8, 58u8] + json_str_arr(
        sources,
    )
}

/// The sourcesContent field: `,"sourcesContent":` and the array of
/// embedded contents.
pub open spec fn contents_part(contents: Seq<Seq<u8>>) -> Seq<u8> {
    seq![
        44u8,
        34u8,
        115u8,
        111u8,
        117u8,
        114u8,
        99u8,
        101u8,
        115u8,
        67u8,
        111u8,
        110u8,
        116u8,
        101u8,
        110u8,
        116u8,
        34u8,
        58u8,
    ] + json_str_arr(contents)
}

/// The names field: `,"names":` and the array of identifier names.
pub open spec fn names_part(names: Seq<Seq<u8>>) -> Seq<u8> {
    seq![44u8, 34u8, 110u8, 97u8, 109u8, 101u8, 115u8, 34u8, 58u8] + json_str_arr(names)
}

/// The mappings field: `,"mappings":` and the quoted mapping string.
pub open spec fn mappings_part(mtext: Seq<u8>) -> Seq<u8> {
    seq![44u8, 34u8, 109u8, 97u8, 112u8, 112u8, 105u8, 110u8, 103u8, 115u8, 34u8, 58u8] + json_str(
        mtext,
    )
}

/// The serialized version-3 source-map document: version, file name,
/// source paths, embedded source contents, names, and the mapping string.
pub open spec fn sourcemap_json(
    file: Seq<u8>,
    sources: Seq<Seq<u8>>,
    contents: Seq<Seq<u8>>,
    names: Seq<Seq<u8>>,
    mtext: Seq<u8>,
) -> Seq<u8> {
    version_part() + file_part(file) + sources_part(sources) + contents_part(contents)
        + names_part(names) + mappings_part(mtext) + seq![125u8]
}

/// Builds the document opening with the version field.
fn version_open_bytes() -> (v: Vec<u8>)
    ensures
        v@ == seq![123u8, 34u8, 118u8, 101u8, 114u8, 115u8, 105u8, 111u8, 110u8, 34u8, 58u8, 51u8],
{
    let mut v: Vec<u8> = Vec::new();
    v.push(123);
    v.push(34);
    v.push(118);
    v.push(101);
    v.push(114);
    v.push(115);
    v.push(105);
    v.push(111);
    v.push(110);
    v.push(34);
    v.push(58);
    v.push(51);
    proof {
        assert(v@ =~= seq![123u8, 34u8, 118u8, 101u8, 114u8, 115u8, 105u8, 111u8, 110u8, 34u8, 58u8, 51u8]);
    }
    v
}

/// Builds the file key.
fn file_key_bytes() -> (v: Vec<u8>)
    ensures
        v@ == seq![44u8, 34u8, 102u8, 105u8, 108u8, 101u8, 34u8, 58u8],
{
    let mut v: Vec<u8> = Vec::new();
    v.push(44);
    v.push(34);
    v.push(102);
    v.push(105);
    v.push(108);
    v.push(101);
    v.push(34);
    v.push(58);
    proof {
        assert(v@ =~= seq![44u8, 34u8, 102u8, 105u8, 108u8, 101u8, 34u8, 58u8]);
    }
    v
}

/// Builds the sources key.
fn sources_key_bytes() -> (v: Vec<u8>)
    ensures
        v@ == seq![44u8, 34u8, 115u8, 111u8, 117u8, 114u8, 99u8, 101u8, 115u8, 34u8, 58u8],
{
    let mut v: Vec<u8> = Vec::new();
    v.push(44);
    v.push(34);
    v.push(115);
    v.push(111);
    v.push(117);
    v.push(114);
    v.push(99);
    v.push(101);
    v.push(115);
    v.push(34);
    v.push(58);
    proof {
        assert(v@ =~= seq![44u8, 34u8, 115u8, 111u8, 117u8, 114u8, 99u8, 101u8, 115u8, 34u8, 58u8]);
    }
    v
}

/// Builds the sourcesContent key.
fn contents_key_bytes() -> (v: Vec<u8>)
    ensures
        v@ == seq![44u8, 34u8, 115u8, 111u8, 117u8, 114u8, 99u8, 101u8, 115u8, 67u8, 111u8, 110u8, 116u8, 101u8, 110u8, 116u8, 34u8, 58u8],
{
    let mut v: Vec<u8> = Vec::new();
    v.push(44);
    v.push(34);
    v.push(115);
    v.push(111);
    v.push(117);
    v.push(114);
    v.push(99);
    v.push(101);
    v.push(115);
    v.push(67);
    v.push(111);
    v.push(110);
    v.push(116);
    v.push(101);
    v.push(110);
    v.push(116);
    v.push(34);
    v.push(58);
    proof {
        assert(v@ =~= seq![44u8, 34u8, 115u8, 111u8, 117u8, 114u8, 99u8, 101u8, 115u8, 67u8, 111u8, 110u8, 116u8, 101u8, 110u8, 116u8, 34u8, 58u8]);
    }
    v
}

/// Builds the names key.
fn names_key_bytes() -> (v: Vec<u8>)
    ensures
        v@ == seq![44u8, 34u8, 110u8, 97u8, 109u8, 101u8, 115u8, 34u8, 58u8],
{
    let mut v: Vec<u8> = Vec::new();
    v.push(44);
    v.push(34);
    v.push(110);
    v.push(97);
    v.push(109);
    v.push(101);
    v.push(115);
    v.push(34);
    v.push(58);
    proof {
        assert(v@ =~= seq![44u8, 34u8, 110u8, 97u8, 109u8, 101u8, 115u8, 34u8, 58u8]);
    }
    v
}

/// Builds the mappings key.
fn mappings_key_bytes() -> (v: Vec<u8>)
    ensures
        v@ == seq![44u8, 34u8, 109u8, 97u8, 112u8, 112u8, 105u8, 110u8, 103u8, 115u8, 34u8, 58u8],
{
    let mut v: Vec<u8> = Vec::new();
    v.push(44);
    v.push(34);
    v.push(109);
    v.push(97);
    v.push(112);
    v.push(112);
    v.push(105);
    v.push(110);
    v.push(103);
    v.push(115);
    v.push(34);
    v.push(58);
    proof {
        assert(v@ =~= seq![44u8, 34u8, 109u8, 97u8, 112u8, 112u8, 105u8, 110u8, 103u8, 115u8, 34u8, 58u8]);
    }
    v
}

/// Serializes a source-map document from its parts.
pub fn generate_source_map(
    sources: &Vec<Vec<u8>>,
    file: &Vec<u8>,
    sources_content: &Vec<Vec<u8>>,
    mappings: &Vec<Mapping>,
    names: &Vec<Vec<u8>>,
) -> (r: Vec<u8>)
    ensures
        r@ == sourcemap_json(
            file@,
            views(sources@),
            views(sources_content@),
            views(names@),
            mappings_text(mapping_models(mappings@)),
        ),
{
    let mut out = version_open_bytes();
    let k1 = file_key_bytes();
    append_bytes(&mut out, &k1);
    let fpart = json_str_bytes(file);
    append_bytes(&mut out, &fpart);
    proof {
        assert(out@ =~= version_part() + file_part(file@));
    }
    let ghost m1 = out@;
    let k2 = sources_key_bytes();
    append_bytes(&mut out, &k2);
    let spart = json_str_arr_bytes(sources);
    append_bytes(&mut out, &spart);
    proof {
        assert(out@ =~= m1 + sources_part(views(sources@)));
    }
    let ghost m2 = out@;
    let k3 = contents_key_bytes();
    append_bytes(&mut out, &k3);
    let cpart = json_str_arr_bytes(sources_content);
    append_bytes(&mut out, &cpart);
    proof {
        assert(out@ =~= m2 + contents_part(views(sources_content@)));
    }
    let ghost m3 = out@;
    let k4 = names_key_bytes();
    append_bytes(&mut out, &k4);
    let npart = json_str_arr_bytes(names);
    append_bytes(&mut out, &npart);
    proof {
        assert(out@ =~= m3 + names_part(views(names@)));
    }
    let ghost m4 = out@;
    let k5 = mappings_key_bytes();
    append_bytes(&mut out, &k5);
    let mtext = generate_mappings_string(mappings);
    let mpart = json_str_bytes(&mtext);
    append_bytes(&mut out, &mpart);
    proof {
        assert(out@ =~= m4 + mappings_part(mappings_text(mapping_models(mappings@))));
    }
    let ghost m5 = out@;
    out.push(125);
    proof {
        assert(out@ =~= m5 + seq![125u8]);
        assert(out@ =~= sourcemap_json(
            file@,
            views(sources@),
            views(sources_content@),
            views(names@),
            mappings_text(mapping_models(mappings@)),
        ));
    }
    out
}

/// The number of newline bytes in `c`.
pub open spec fn count_newlines(c: Seq<u8>) -> nat
    decreases c.len(),
{
    if c.len() == 0 {
        0
    } else {
        count_newlines(c.drop_last()) + (if c.last() == 10u8 {
            1nat
        } else {
            0nat
        })
    }
}

/// The mathematical view of a source-map generator.
#[verifier::ext_equal]
pub struct GenModel {
    pub file: Seq<u8>,
    pub sources: Seq<Seq<u8>>,
    pub contents: Seq<Seq<u8>>,
    pub names: Seq<Seq<u8>>,
    pub mappings: Seq<MappingModel>,
    pub next_line: int,
}

/// The generator state after recording one module: the module's path and
/// content are appended, one mapping is recorded at the current generated
/// line, and the line counter advances over the module's header line and
/// content lines, saturating at the machine limit.
pub open spec fn spec_add_mapping(g: GenModel, path: Seq<u8>, content: Seq<u8>) -> GenModel {
    GenModel {
        file: g.file,
        sources: g.sources.push(path),
        contents: g.contents.push(content),
        names: g.names,
        mappings: g.mappings.push(
            MappingModel {
                original_line: 0,
                original_column: 0,
                generated_line: g.next_line,
                generated_column: 0,
                name_index: None,
            },
        ),
        next_line: if g.next_line + 2 + count_newlines(content) <= usize::MAX {
            g.next_line + 2 + count_newlines(content)
        } else {
            usize::MAX as int
        },
    }
}

/// Accumulates mappings and module sources as the build assembles output,
/// and serializes the source-map document at the end.
pub struct SourceMapGenerator {
    file: Vec<u8>,
    sources: Vec<Vec<u8>>,
    sources_content: Vec<Vec<u8>>,
    names: Vec<Vec<u8>>,
    mappings: Vec<Mapping>,
    next_line: usize,
}

impl SourceMapGenerator {
    /// The generator's mathematical view.
    pub closed spec fn model(self) -> GenModel {
        GenModel {
            file: self.file@,
            sources: views(self.sources@),
            contents: views(self.sources_content@),
            names: views(self.names@),
            mappings: mapping_models(self.mappings@),
            next_line: self.next_line as int,
        }
    }

    /// Creates a generator with no recorded mappings and the default
    /// output file name `out.js`.
    pub fn new() -> (g: SourceMapGenerator)
        ensures
            g.model().file == seq![111u8, 117u8, 116u8, 46u8, 106u8, 115u8],
            g.model().sources =~= Seq::<Seq<u8>>::empty(),
            g.model().contents =~= Seq::<Seq<u8>>::empty(),
            g.model().names =~= Seq::<Seq<u8>>::empty(),
            g.model().mappings =~= Seq::<MappingModel>::empty(),
            g.model().next_line == 0,
    {
        let mut file: Vec<u8> = Vec::new();
        file.push(111);
        file.push(117);
        file.push(116);
        file.push(46);
        file.push(106);
        file.push(115);
        proof {
            assert(file@ =~= seq![111u8, 117u8, 116u8, 46u8, 106u8, 115u8]);
        }
        let g = SourceMapGenerator {
            file,
            sources: Vec::new(),
            sources_content: Vec::new(),
            names: Vec::new(),
            mappings: Vec::new(),
            next_line: 0,
        };
        proof {
            assert(g.model().sources =~= Seq::<Seq<u8>>::empty());
            assert(g.model().contents =~= Seq::<Seq<u8>>::empty());
            assert(g.model().names =~= Seq::<Seq<u8>>::empty());
            assert(g.model().mappings =~= Seq::<MappingModel>::empty());
        }
        g
    }

    /// Records one assembled module: its path, its content, and one
    /// mapping from the module's first generated line to the start of the
    /// original source.
    pub fn add_mapping(&mut self, file_path: &Vec<u8>, content: &Vec<u8>)
        ensures
            final(self).model() == spec_add_mapping(old(self).model(), file_path@, content@),
    {
        let ghost prev = self.model();
        self.sources.push(crate::bytesutil::clone_bytes(file_path));
        self.sources_content.push(crate::bytesutil::clone_bytes(content));
        let m = Mapping {
            original_line: 0,
            original_column: 0,
            generated_line: self.next_line,
            generated_column: 0,
            name_index: None,
        };
        self.mappings.push(m);
        let lines = count_newline_bytes(content);
        if self.next_line <= usize::MAX - 2 && self.next_line + 2 <= usize::MAX - lines {
            self.next_line = self.next_line + 2 + lines;
        } else {
            self.next_line = usize::MAX;
        }
        proof {
            assert(views(self.sources@) =~= prev.sources.push(file_path@));
            assert(views(self.sources_content@) =~= prev.contents.push(content@));
            assert(mapping_models(self.mappings@) =~= prev.mappings.push(m.model()));
            assert(self.model() =~= spec_add_mapping(prev, file_path@, content@));
        }
    }

    /// Serializes the accumulated state as a source-map document.
    pub fn generate(&self) -> (r: Vec<u8>)
        ensures
            r@ == sourcemap_json(
                self.model().file,
                self.model().sources,
                self.model().contents,
                self.model().names,
                mappings_text(self.model().mappings),
            ),
    {
        generate_source_map(
            &self.sources,
            &self.file,
            &self.sources_content,
            &self.mappings,
            &self.names,
        )
    }
}

/// Counts the newline bytes in `content`.
fn count_newline_bytes(content: &Vec<u8>) -> (r: usize)
    ensures
        r == count_newlines(content@),
{
    let mut count: usize = 0;
    let mut i: usize = 0;
    proof {
        assert(content@.take(0) =~= Seq::<u8>::empty());
    }
    while i < content.len()
        invariant
            0 <= i <= content@.len(),
            count == count_newlines(content@.take(i as int)),
            count <= i,
        decreases content@.len() - i,
    {
        proof {
            assert(content@.take(i + 1).drop_last() =~= content@.take(i as int));
            assert(content@.take(i + 1).last() == content@[i as int]);
        }
        if content[i] == 10 {
            count = count + 1;
        }
        i = i + 1;
    }
    proof {
        assert(content@.take(content@.len() as int) =~= content@);
    }
    count
}


/// A JSON value, as loaded from an existing source-map document. Numbers
/// carry their unsigned integer value when they have one.
pub enum JsonValue {
    Null,
    Bool(bool),
    Num(Option<u64>),
    Str(Vec<u8>),
    Arr(Vec<JsonValue>),
    Obj(Vec<(Vec<u8>, JsonValue)>),
}

/// The failure reported for an ill-formed source-map document.
#[derive(Clone, Copy, PartialEq, Eq, Structural, Debug)]
pub enum SourceMapError {
    MalformedSourceMap,
}

/// The value of the first object field named `key`, if any.
pub open spec fn obj_lookup(fields: Seq<(Vec<u8>, JsonValue)>, key: Seq<u8>) -> Option<JsonValue>
    decreases fields.len(),
{
    if fields.len() == 0 {
        None
    } else if fields.first().0@ == key {
        Some(fields.first().1)
    } else {
        obj_lookup(fields.drop_first(), key)
    }
}

/// The views of a JSON array whose elements are all strings, when they
/// are.
pub open spec fn arr_strings(items: Seq<JsonValue>) -> Option<Seq<Seq<u8>>>
    decreases items.len(),
{
    if items.len() == 0 {
        Some(Seq::empty())
    } else {
        match arr_strings(items.drop_last()) {
            None => None,
            Some(acc) => match items.last() {
                JsonValue::Str(s) => Some(acc.push(s@)),
                _ => None,
            },
        }
    }
}

/// The field of a document under `key`, when the document is an object.
pub open spec fn doc_field(doc: JsonValue, key: Seq<u8>) -> Option<JsonValue> {
    match doc {
        JsonValue::Obj(fields) => obj_lookup(fields@, key),
        _ => None,
    }
}

/// Whether a field holds a string, and its bytes.
pub open spec fn field_string(doc: JsonValue, key: Seq<u8>) -> Option<Seq<u8>> {
    match doc_field(doc, key) {
        Some(JsonValue::Str(s)) => Some(s@),
        _ => None,
    }
}

/// Whether a field holds an array of strings, and their bytes.
pub open spec fn field_string_arr(doc: JsonValue, key: Seq<u8>) -> Option<Seq<Seq<u8>>> {
    match doc_field(doc, key) {
        Some(JsonValue::Arr(items)) => arr_strings(items@),
        _ => None,
    }
}

/// The version field's numeric value, when it has one.
pub open spec fn field_version(doc: JsonValue) -> Option<u64> {
    match doc_field(doc, seq![118u8, 101u8, 114u8, 115u8, 105u8, 111u8, 110u8]) {
        Some(JsonValue::Num(n)) => n,
        _ => None,
    }
}

/// Whether the document is a well-formed source map: the version is the
/// number 3 or 2, `file` and `mappings` are strings, and `sources`,
/// `sourcesContent` and `names` are arrays of strings.
pub open spec fn spec_valid_source_map(doc: JsonValue) -> bool {
    &&& (field_version(doc) == Some(3u64) || field_version(doc) == Some(2u64))
    &&& field_string(doc, seq![102u8, 105u8, 108u8, 101u8]) is Some
    &&& field_string_arr(doc, seq![115u8, 111u8, 117u8, 114u8, 99u8, 101u8, 115u8]) is Some
    &&& field_string_arr(
        doc,
        seq![
            115u8,
            111u8,
            117u8,
            114u8,
            99u8,
            101u8,
            115u8,
            67u8,
            111u8,
            110u8,
            116u8,
            101u8,
            110u8,
            116u8,
        ],
    ) is Some
    &&& field_string_arr(doc, seq![110u8, 97u8, 109u8, 101u8, 115u8]) is Some
    &&& field_string(doc, seq![109u8, 97u8, 112u8, 112u8, 105u8, 110u8, 103u8, 115u8]) is Some
}

/// A source-map document in parsed form.
#[derive(Debug, PartialEq, Eq)]
pub struct SourceMap {
    pub version: u64,
    pub file: Vec<u8>,
    pub sources: Vec<Vec<u8>>,
    pub sources_content: Vec<Vec<u8>>,
    pub names: Vec<Vec<u8>>,
    pub mappings: Vec<u8>,
}

/// Finds the first object field named `key`.
fn obj_find(fields: &Vec<(Vec<u8>, JsonValue)>, key: &Vec<u8>) -> (r: Option<usize>)
    ensures
        match r {
            Some(i) => 0 <= i < fields@.len() && obj_lookup(fields@, key@) == Some(
                fields@[i as int].1,
            ),
            None => obj_lookup(fields@, key@) is None,
        },
{
    let mut i: usize = 0;
    proof {
        assert(fields@.skip(0) =~= fields@);
    }
    while i < fields.len()
        invariant
            0 <= i <= fields@.len(),
            obj_lookup(fields@, key@) == obj_lookup(fields@.skip(i as int), key@),
        decreases fields@.len() - i,
    {
        proof {
            assert(fields@.skip(i as int).first() == fields@[i as int]);
            assert(fields@.skip(i as int).drop_first() =~= fields@.skip(i + 1));
        }
        if crate::bytesutil::bytes_eq(&fields[i].0, key) {
            return Some(i);
        }
        i = i + 1;
    }
    proof {
        assert(fields@.skip(fields@.len() as int) =~= Seq::<(Vec<u8>, JsonValue)>::empty());
    }
    None
}

/// Once a prefix of an array fails to be all strings, the whole array
/// does.
proof fn lemma_arr_strings_none(items: Seq<JsonValue>, i: int)
    requires
        0 <= i <= items.len(),
        arr_strings(items.take(i)) is None,
    ensures
        arr_strings(items) is None,
    decreases items.len() - i,
{
    if i == items.len() {
        assert(items.take(i) =~= items);
    } else {
        assert(items.take(i + 1).drop_last() =~= items.take(i));
        lemma_arr_strings_none(items, i + 1);
    }
}

/// Extracts the byte strings of an all-string JSON array.
fn collect_strings(items: &Vec<JsonValue>) -> (r: Option<Vec<Vec<u8>>>)
    ensures
        match r {
            Some(v) => arr_strings(items@) == Some(views(v@)),
            None => arr_strings(items@) is None,
        },
{
    let mut out: Vec<Vec<u8>> = Vec::new();
    let mut i: usize = 0;
    proof {
        assert(items@.take(0) =~= Seq::<JsonValue>::empty());
        assert(arr_strings(items@.take(0)) == Some(views(out@)));
    }
    while i < items.len()
        invariant
            0 <= i <= items@.len(),
            arr_strings(items@.take(i as int)) == Some(views(out@)),
        decreases items@.len() - i,
    {
        proof {
            assert(items@.take(i + 1).drop_last() =~= items@.take(i as int));
            assert(items@.take(i + 1).last() == items@[i as int]);
        }
        match &items[i] {
            JsonValue::Str(s) => {
                let ghost prev = views(out@);
                out.push(crate::bytesutil::clone_bytes(s));
                proof {
                    assert(views(out@) =~= prev.push(items@[i as int]->Str_0@));
                }
            },
            _ => {
                proof {
                    lemma_arr_strings_none(items@, i + 1);
                }
                return None;
            },
        }
        i = i + 1;
    }
    proof {
        assert(items@.take(items@.len() as int) =~= items@);
    }
    Some(out)
}

/// Builds the bytes of a field key.
fn key_bytes(which: u8) -> (v: Vec<u8>)
    requires
        which < 6,
    ensures
        which == 0 ==> v@ == seq![118u8, 101u8, 114u8, 115u8, 105u8, 111u8, 110u8],
        which == 1 ==> v@ == seq![102u8, 105u8, 108u8, 101u8],
        which == 2 ==> v@ == seq![115u8, 111u8, 117u8, 114u8, 99u8, 101u8, 115u8],
        which == 3 ==> v@ == seq![
            115u8,
            111u8,
            117u8,
            114u8,
            99u8,
            101u8,
            115u8,
            67u8,
            111u8,
            110u8,
            116u8,
            101u8,
            110u8,
            116u8,
        ],
        which == 4 ==> v@ == seq![110u8, 97u8, 109u8, 101u8, 115u8],
        which == 5 ==> v@ == seq![109u8, 97u8, 112u8, 112u8, 105u8, 110u8, 103u8, 115u8],
{
    let mut v: Vec<u8> = Vec::new();
    if which == 0 {
        v.push(118);
        v.push(101);
        v.push(114);
        v.push(115);
        v.push(105);
        v.push(111);
        v.push(110);
        proof {
            assert(v@ =~= seq![118u8, 101u8, 114u8, 115u8, 105u8, 111u8, 110u8]);
        }
    } else if which == 1 {
        v.push(102);
        v.push(105);
        v.push(108);
        v.push(101);
        proof {
            assert(v@ =~= seq![102u8, 105u8, 108u8, 101u8]);
        }
    } else if which == 2 {
        v.push(115);
        v.push(111);
        v.push(117);
        v.push(114);
        v.push(99);
        v.push(101);
        v.push(115);
        proof {
            assert(v@ =~= seq![115u8, 111u8, 117u8, 114u8, 99u8, 101u8, 115u8]);
        }
    } else if which == 3 {
        v.push(115);
        v.push(111);
        v.push(117);
        v.push(114);
        v.push(99);
        v.push(101);
        v.push(115);
        v.push(67);
        v.push(111);
        v.push(110);
        v.push(116);
        v.push(101);
        v.push(110);
        v.push(116);
        proof {
            assert(v@ =~= seq![
                115u8,
                111u8,
                117u8,
                114u8,
                99u8,
                101u8,
                115u8,
                67u8,
                111u8,
                110u8,
                116u8,
                101u8,
                110u8,
                116u8,
            ]);
        }
    } else if which == 4 {
        v.push(110);
        v.push(97);
        v.push(109);
        v.push(101);
        v.push(115);
        proof {
            assert(v@ =~= seq![110u8, 97u8, 109u8, 101u8, 115u8]);
        }
    } else {
        v.push(109);
        v.push(97);
        v.push(112);
        v.push(112);
        v.push(105);
        v.push(110);
        v.push(103);
        v.push(115);
        proof {
            assert(v@ =~= seq![109u8, 97u8, 112u8, 112u8, 105u8, 110u8, 103u8, 115u8]);
        }
    }
    v
}

/// Extracts the string under `key`, when the document is an object and
/// the field holds a string.
fn get_string_field(doc: &JsonValue, key: &Vec<u8>) -> (r: Option<Vec<u8>>)
    ensures
        crate::bytesutil::opt_view(r) == field_string(*doc, key@),
{
    match doc {
        JsonValue::Obj(fields) => {
            match obj_find(fields, key) {
                Some(i) => match &fields[i].1 {
                    JsonValue::Str(s) => Some(crate::bytesutil::clone_bytes(s)),
                    _ => None,
                },
                None => None,
            }
        },
        _ => None,
    }
}

/// Extracts the strings under `key`, when the document is an object and
/// the field holds an array of strings.
fn get_string_arr_field(doc: &JsonValue, key: &Vec<u8>) -> (r: Option<Vec<Vec<u8>>>)
    ensures
        match r {
            Some(v) => field_string_arr(*doc, key@) == Some(views(v@)),
            None => field_string_arr(*doc, key@) is None,
        },
{
    match doc {
        JsonValue::Obj(fields) => {
            match obj_find(fields, key) {
                Some(i) => match &fields[i].1 {
                    JsonValue::Arr(items) => collect_strings(items),
                    _ => None,
                },
                None => None,
            }
        },
        _ => None,
    }
}

/// Validates a loaded source-map document and extracts its parts.
/// Succeeds exactly on well-formed documents: the version must be the
/// number 3 or 2, `file` and `mappings` must be strings, and `sources`,
/// `sourcesContent` and `names` arrays of strings; any violation is the
/// malformed-source-map condition, which callers treat as fatal.
pub fn validate_source_map(doc: &JsonValue) -> (r: Result<SourceMap, SourceMapError>)
    ensures
        r is Ok <==> spec_valid_source_map(*doc),
        r matches Err(e) ==> e == SourceMapError::MalformedSourceMap,
        r matches Ok(sm) ==> {
            &&& Some(sm.version) == field_version(*doc)
            &&& Some(sm.file@) == field_string(*doc, seq![102u8, 105u8, 108u8, 101u8])
            &&& Some(views(sm.sources@)) == field_string_arr(
                *doc,
                seq![115u8, 111u8, 117u8, 114u8, 99u8, 101u8, 115u8],
            )
            &&& Some(views(sm.sources_content@)) == field_string_arr(
                *doc,
                seq![
                    115u8,
                    111u8,
                    117u8,
                    114u8,
                    99u8,
                    101u8,
                    115u8,
                    67u8,
                    111u8,
                    110u8,
                    116u8,
                    101u8,
                    110u8,
                    116u8,
                ],
            )
            &&& Some(views(sm.names@)) == field_string_arr(
                *doc,
                seq![110u8, 97u8, 109u8, 101u8, 115u8],
            )
            &&& Some(sm.mappings@) == field_string(
                *doc,
                seq![109u8, 97u8, 112u8, 112u8, 105u8, 110u8, 103u8, 115u8],
            )
        },
{
    let vkey = key_bytes(0);
    let version: u64 = match doc {
        JsonValue::Obj(fields) => {
            match obj_find(fields, &vkey) {
                Some(i) => match &fields[i].1 {
                    JsonValue::Num(Some(n)) => {
                        if *n == 3 || *n == 2 {
                            *n
                        } else {
                            return Err(SourceMapError::MalformedSourceMap);
                        }
                    },
                    _ => {
                        return Err(SourceMapError::MalformedSourceMap);
                    },
                },
                None => {
                    return Err(SourceMapError::MalformedSourceMap);
                },
            }
        },
        _ => {
            return Err(SourceMapError::MalformedSourceMap);
        },
    };
    let fkey = key_bytes(1);
    let file = match get_string_field(doc, &fkey) {
        Some(f) => f,
        None => {
            return Err(SourceMapError::MalformedSourceMap);
        },
    };
    let skey = key_bytes(2);
    let sources = match get_string_arr_field(doc, &skey) {
        Some(s) => s,
        None => {
            return Err(SourceMapError::MalformedSourceMap);
        },
    };
    let ckey = key_bytes(3);
    let sources_content = match get_string_arr_field(doc, &ckey) {
        Some(s) => s,
        None => {
            return Err(SourceMapError::MalformedSourceMap);
        },
    };
    let nkey = key_bytes(4);
    let names = match get_string_arr_field(doc, &nkey) {
        Some(s) => s,
        None => {
            return Err(SourceMapError::MalformedSourceMap);
        },
    };
    let mkey = key_bytes(5);
    let mappings = match get_string_field(doc, &mkey) {
        Some(m) => m,
        None => {
            return Err(SourceMapError::MalformedSourceMap);
        },
    };
    Ok(SourceMap { version, file, sources, sources_content, names, mappings })
}

/// The concatenation of string lists, in order.
pub open spec fn cat_lists(ls: Seq<Seq<Seq<u8>>>) -> Seq<Seq<u8>>
    decreases ls.len(),
{
    if ls.len() == 0 {
        Seq::empty()
    } else {
        cat_lists(ls.drop_last()) + ls.last()
    }
}

/// The concatenation of byte strings, in order.
pub open spec fn cat_bytes(ls: Seq<Seq<u8>>) -> Seq<u8>
    decreases ls.len(),
{
    if ls.len() == 0 {
        Seq::empty()
    } else {
        cat_bytes(ls.drop_last()) + ls.last()
    }
}

/// The source lists of the input maps.
pub open spec fn all_sources(ms: Seq<SourceMap>) -> Seq<Seq<Seq<u8>>> {
    ms.map_values(|m: SourceMap| views(m.sources@))
}

/// The embedded-content lists of the input maps.
pub open spec fn all_contents(ms: Seq<SourceMap>) -> Seq<Seq<Seq<u8>>> {
    ms.map_values(|m: SourceMap| views(m.sources_content@))
}

/// The name lists of the input maps.
pub open spec fn all_names(ms: Seq<SourceMap>) -> Seq<Seq<Seq<u8>>> {
    ms.map_values(|m: SourceMap| views(m.names@))
}

/// The mapping strings of the input maps.
pub open spec fn all_mappings(ms: Seq<SourceMap>) -> Seq<Seq<u8>> {
    ms.map_values(|m: SourceMap| m.mappings@)
}

/// An element occurs in the concatenation exactly when it occurs in one
/// of the lists.
pub proof fn lemma_cat_contains(ls: Seq<Seq<Seq<u8>>>, x: Seq<u8>)
    ensures
        cat_lists(ls).contains(x) <==> exists|i: int| 0 <= i < ls.len() && ls[i].contains(x),
    decreases ls.len(),
{
    if ls.len() == 0 {
    } else {
        lemma_cat_contains(ls.drop_last(), x);
        let cat = cat_lists(ls);
        let head = cat_lists(ls.drop_last());
        if cat.contains(x) {
            let j = choose|j: int| 0 <= j < cat.len() && cat[j] == x;
            if j < head.len() {
                assert(head[j] == x);
                assert(head.contains(x));
                let i = choose|i: int| 0 <= i < ls.drop_last().len() && ls.drop_last()[i].contains(
                    x,
                );
                assert(ls[i].contains(x));
            } else {
                assert(ls.last()[j - head.len()] == x);
                assert(ls[ls.len() - 1].contains(x));
            }
        }
        if exists|i: int| 0 <= i < ls.len() && ls[i].contains(x) {
            let i = choose|i: int| 0 <= i < ls.len() && ls[i].contains(x);
            if i < ls.len() - 1 {
                assert(ls.drop_last()[i].contains(x));
                assert(head.contains(x));
                let j = choose|j: int| 0 <= j < head.len() && head[j] == x;
                assert(cat[j] == x);
            } else {
                let j = choose|j: int| 0 <= j < ls.last().len() && ls.last()[j] == x;
                assert(cat[head.len() + j] == x);
            }
        }
    }
}

/// Collects all sources (or contents, or names) of the input maps.
fn cat_field_lists(ms: &Vec<SourceMap>, which: u8) -> (r: Vec<Vec<u8>>)
    requires
        which < 3,
    ensures
        which == 0 ==> views(r@) == cat_lists(all_sources(ms@)),
        which == 1 ==> views(r@) == cat_lists(all_contents(ms@)),
        which == 2 ==> views(r@) == cat_lists(all_names(ms@)),
{
    let ghost ls = if which == 0 {
        all_sources(ms@)
    } else if which == 1 {
        all_contents(ms@)
    } else {
        all_names(ms@)
    };
    let mut out: Vec<Vec<u8>> = Vec::new();
    let mut i: usize = 0;
    proof {
        assert(ls.take(0) =~= Seq::<Seq<Seq<u8>>>::empty());
        assert(views(out@) =~= cat_lists(ls.take(0)));
    }
    while i < ms.len()
        invariant
            0 <= i <= ms@.len(),
            ls.len() == ms@.len(),
            which < 3,
            ls == (if which == 0 {
                all_sources(ms@)
            } else if which == 1 {
                all_contents(ms@)
            } else {
                all_names(ms@)
            }),
            views(out@) == cat_lists(ls.take(i as int)),
        decreases ms@.len() - i,
    {
        proof {
            assert(ls.take(i + 1).drop_last() =~= ls.take(i as int));
            assert(ls.take(i + 1).last() == ls[i as int]);
        }
        let ghost prev = views(out@);
        let part = if which == 0 {
            crate::bytesutil::clone_list(&ms[i].sources)
        } else if which == 1 {
            crate::bytesutil::clone_list(&ms[i].sources_content)
        } else {
            crate::bytesutil::clone_list(&ms[i].names)
        };
        let mut k: usize = 0;
        while k < part.len()
            invariant
                0 <= k <= views(part@).len(),
                views(part@) == ls[i as int],
                views(out@) == prev + ls[i as int].take(k as int),
            decreases views(part@).len() - k,
        {
            let ghost mid = views(out@);
            out.push(crate::bytesutil::clone_bytes(&part[k]));
            proof {
                assert(views(out@) =~= mid.push(ls[i as int][k as int]));
                assert(views(out@) =~= prev + ls[i as int].take(k + 1));
            }
            k = k + 1;
        }
        proof {
            assert(ls[i as int].take(ls[i as int].len() as int) =~= ls[i as int]);
            assert(views(out@) =~= cat_lists(ls.take(i + 1)));
        }
        i = i + 1;
    }
    proof {
        assert(ls.take(ls.len() as int) =~= ls);
    }
    out
}

/// Merges source-map documents: sources, contents and names are the
/// deduplicated concatenations of the inputs in order, the mapping
/// strings are concatenated in input order, and the merged file name is
/// the fixed placeholder `merged.js`.
pub fn merge_source_maps(maps: &Vec<SourceMap>) -> (r: SourceMap)
    ensures
        r.version == 3,
        r.file@ == seq![109u8, 101u8, 114u8, 103u8, 101u8, 100u8, 46u8, 106u8, 115u8],
        views(r.sources@) == crate::bytesutil::dedup_first(cat_lists(all_sources(maps@))),
        views(r.sources_content@) == crate::bytesutil::dedup_first(
            cat_lists(all_contents(maps@)),
        ),
        views(r.names@) == crate::bytesutil::dedup_first(cat_lists(all_names(maps@))),
        r.mappings@ == cat_bytes(all_mappings(maps@)),
{
    let all_s = cat_field_lists(maps, 0);
    let all_c = cat_field_lists(maps, 1);
    let all_n = cat_field_lists(maps, 2);
    let sources = crate::bytesutil::dedup_list(&all_s);
    let sources_content = crate::bytesutil::dedup_list(&all_c);
    let names = crate::bytesutil::dedup_list(&all_n);
    let ghost mls = all_mappings(maps@);
    let mut mappings: Vec<u8> = Vec::new();
    let mut i: usize = 0;
    proof {
        assert(mls.take(0) =~= Seq::<Seq<u8>>::empty());
        assert(mappings@ =~= cat_bytes(mls.take(0)));
    }
    while i < maps.len()
        invariant
            0 <= i <= mls.len(),
            mls == all_mappings(maps@),
            mappings@ == cat_bytes(mls.take(i as int)),
        decreases mls.len() - i,
    {
        proof {
            assert(mls.take(i + 1).drop_last() =~= mls.take(i as int));
            assert(mls.take(i + 1).last() == mls[i as int]);
        }
        append_bytes(&mut mappings, &maps[i].mappings);
        i = i + 1;
    }
    proof {
        assert(mls.take(mls.len() as int) =~= mls);
    }
    let mut file: Vec<u8> = Vec::new();
    file.push(109);
    file.push(101);
    file.push(114);
    file.push(103);
    file.push(101);
    file.push(100);
    file.push(46);
    file.push(106);
    file.push(115);
    proof {
        assert(file@ =~= seq![109u8, 101u8, 114u8, 103u8, 101u8, 100u8, 46u8, 106u8, 115u8]);
    }
    SourceMap { version: 3, file, sources, sources_content, names, mappings }
}

/// The sources of a merged document are the set union of the inputs'
/// sources: a path occurs in the merge exactly when some input carries
/// it, and it occurs only once. The same holds of the names and the
/// embedded contents, which merge by the same rule.
pub proof fn lemma_merge_sources_union(maps: Seq<SourceMap>, merged: Seq<Seq<u8>>, x: Seq<u8>)
    requires
        merged == crate::bytesutil::dedup_first(cat_lists(all_sources(maps))),
    ensures
        merged.contains(x) <==> exists|i: int|
            0 <= i < maps.len() && views(maps[i].sources@).contains(x),
        merged.no_duplicates(),
{
    crate::bytesutil::lemma_dedup_first_set(cat_lists(all_sources(maps)));
    lemma_cat_contains(all_sources(maps), x);
    if merged.contains(x) {
        let i = choose|i: int| 0 <= i < all_sources(maps).len() && all_sources(maps)[i].contains(
            x,
        );
        assert(views(maps[i].sources@).contains(x));
    }
    if exists|i: int| 0 <= i < maps.len() && views(maps[i].sources@).contains(x) {
        let i = choose|i: int| 0 <= i < maps.len() && views(maps[i].sources@).contains(x);
        assert(all_sources(maps)[i].contains(x));
        assert(cat_lists(all_sources(maps)).contains(x));
    }
}

/// The mapping string with every run of consecutive `;` bytes collapsed
/// to a single one: runs of empty mapping groups fold together.
pub open spec fn spec_compress(s: Seq<u8>) -> Seq<u8>
    decreases s.len(),
{
    if s.len() == 0 {
        Seq::empty()
    } else if s.len() >= 2 && s[0] == 59u8 && s[1] == 59u8 {
        spec_compress(s.drop_first())
    } else {
        seq![s[0]] + spec_compress(s.drop_first())
    }
}

/// Collapses runs of empty mapping groups in a document's mapping
/// string; every other field is kept as it is.
pub fn compress_source_map(map: &SourceMap) -> (r: SourceMap)
    ensures
        r.version == map.version,
        r.file@ == map.file@,
        views(r.sources@) == views(map.sources@),
        views(r.sources_content@) == views(map.sources_content@),
        views(r.names@) == views(map.names@),
        r.mappings@ == spec_compress(map.mappings@),
{
    let ghost c = map.mappings@;
    let mut out: Vec<u8> = Vec::new();
    let mut i: usize = 0;
    proof {
        assert(c.skip(0) =~= c);
        assert(out@ + spec_compress(c.skip(0)) =~= spec_compress(c));
    }
    while i < map.mappings.len()
        invariant
            0 <= i <= c.len(),
            spec_compress(c) == out@ + spec_compress(c.skip(i as int)),
        decreases c.len() - i,
    {
        proof {
            assert(c.skip(i as int).drop_first() =~= c.skip(i + 1));
            assert(c.skip(i as int)[0] == c[i as int]);
            if i + 1 < c.len() {
                assert(c.skip(i as int)[1] == c[i + 1]);
            }
        }
        let b = map.mappings[i];
        if b == 59 && i + 1 < map.mappings.len() && map.mappings[i + 1] == 59 {
        } else {
            let ghost prev = out@;
            out.push(b);
            proof {
                assert(out@ =~= prev + seq![c[i as int]]);
            }
        }
        i = i + 1;
    }
    proof {
        assert(c.skip(c.len() as int) =~= Seq::<u8>::empty());
        assert(out@ + spec_compress(c.skip(c.len() as int)) =~= out@);
    }
    SourceMap {
        version: map.version,
        file: crate::bytesutil::clone_bytes(&map.file),
        sources: crate::bytesutil::clone_list(&map.sources),
        sources_content: crate::bytesutil::clone_list(&map.sources_content),
        names: crate::bytesutil::clone_list(&map.names),
        mappings: out,
    }
}


} // verus!
