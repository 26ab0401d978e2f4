//! The type-annotation stripper: a regex-backed content transform that
//! removes TypeScript-style annotations from JavaScript text, offered as
//! a pluggable build transform.

use vstd::prelude::*;

use crate::bytesutil::opt_view;
use crate::plugin::Plugin;

verus! {

/// The pattern whose matches are removed. Each alternative covers one
/// annotation form: generic and plain type annotations, interface, type,
/// enum and namespace declarations, annotated bindings and signatures,
/// casts, doc comments and decorators.
const TYPE_ANNOTATION_PATTERN: &'static str ="(?s)\n        (?:\\b(?:number|string|boolean|any|void|undefined|object|Array|Record|Tuple|Function|Promise|Set|Map|WeakMap|WeakSet|Symbol|Date|RegExp)\\s*<[^>]*>)|\n        \\b(?:number|string|boolean|any|void|undefined|object|Array|Record|Tuple|Function|Promise|Set|Map|WeakMap|WeakSet|Symbol|Date|RegExp)\\s*[\\w]+\\s*:\\s*[^;\\n]*?|\n        \\b(?:interface|type)\\s+\\w+\\s*\\{[^\\}]*\\}|\n        \\b(?:interface|type)\\s+\\w+\\s*=\\s*[^;]*|\n        \\b(?:const|let|var)\\s+[\\w]+\\s*:\\s*[^;\\n]*?;\\s*|\n        \\b(?:const|let|var)\\s+[\\w]+\\s*:\\s*[^;\\n]*?\\s*=\\s*[^;\\n]*?;\\s*|\n        \\b(?:const|let|var)\\s+[\\w]+\\s*=\\s*[^;\\n]*?;\\s*|\n        \\b(?:function|const|let|var)\\s+[\\w]+\\s*\\([^)]*\\)\\s*:\\s*[^;\\n]*?|\n        \\b(?:function|const|let|var)\\s+[\\w]+\\s*=\\s*\\([^)]*\\)\\s*:\\s*[^;\\n]*?|\n        \\b(?:constructor|new)\\s*\\([^)]*\\)\\s*:\\s*[^;\\n]*?|\n        \\s*as\\s+[^;\\n]*|\n        <[^>]*>|\n        /\\*\\*[\\s\\S]*?\\*/|\n        \\b(?:is)\\s+[^;\\n]*|\n        \\benum\\s+\\w+\\s*\\{[^\\}]*\\}|\n        \\bnamespace\\s+\\w+\\s*\\{[^\\}]*\\}|\n        @\\w+|\n        \\([^)]*\\)\\s*:\\s*[^;\\n]*|\n        \\{[^\\}]*?:\\s*[^;\\n]*\\}|\n        \\b(?:function|const|let|var)\\s+[\\w]+\\s*<[^>]*>|\n        \\b(?:public|private|protected)\\s+[\\w]+\\s*:\\s*[^;\\n]*|\n        \\b(?:abstract|readonly|static)\\s+[\\w]+\\s*:\\s*[^;\\n]*|\n        \\b(?:keyof|typeof)\\s+[\\w]+\\s*:\\s*[^;\\n]*|\n        \\b(?:import|export)\\s+[\\w]+\\s*:\\s*[^;\\n]*|\n        \\b(?:declare|type)\\s+\\w+\\s*=\\s*[^;\\n]*|\n        \\b(?:import|export)\\s+[\\w]+\\s*=\\s*[^;\\n]*|\n        \\b(?:namespace|module)\\s+\\w+\\s*\\{[^\\}]*\\}|\n        \\b(?:default|named)\\s+\\w+\\s*=\\s*[^;\\n]*|\n        \\b(?:const|let|var)\\s+[\\w]+\\s*=\\s*[^;\\n]*?;\\s*|\n        \\b(?:function|const|let|var)\\s+[\\w]+\\s*=\\s*[^;\\n]*?;\\s*|\n        \\b(?:typeof|keyof)\\s+[\\w]+\\s*:\\s*[^;\\n]*|\n        \\b(?:type|interface)\\s+\\w+\\s*=\\s*[^;]*|\n        \\b(?:abstract|protected|private|public|readonly|static)\\s*[\\w]+\\s*:\\s*[^;\\n]*|\n        \\b(?:new)\\s*\\([^)]*\\)\\s*:\\s*[^;\\n]*|\n        \\b(?:typeof|keyof)\\s+[\\w]+\\s*:\\s*[^;\\n]*|\n        \\b(?:interface|type)\\s+[\\w]+\\s*:\\s*[^;\\n]*";

/// What stripping annotations from the given text yields. The result is
/// a function of the text alone.
pub uninterp spec fn stripped_annotations_of(code: Seq<u8>) -> Seq<u8>;

/// Relies on regex's `Regex::replace_all` over the fixed annotation
/// pattern: every non-overlapping match is removed, and the result
/// depends on the input text alone. Text without any match, the empty
/// text included, comes back unchanged.
#[verifier::external_body]
fn strip_annotations_raw(code: &Vec<u8>) -> (r: Vec<u8>)
    ensures
        r@ == stripped_annotations_of(code@),
        code@.len() == 0 ==> r@.len() == 0,
{
    let re = regex::bytes::Regex::new(TYPE_ANNOTATION_PATTERN).unwrap();
    re.replace_all(code.as_slice(), &b""[..]).into_owned()
}

/// Removes TypeScript-style type annotations from JavaScript text.
pub fn remove_type_annotations(js_code: &Vec<u8>) -> (r: Vec<u8>)
    ensures
        r@ == stripped_annotations_of(js_code@),
        js_code@.len() == 0 ==> r@.len() == 0,
{
    strip_annotations_raw(js_code)
}

/// A build plugin that strips type annotations from every module at load
/// time.
pub struct TypeAnnotationStripper;

impl Plugin for TypeAnnotationStripper {
    open spec fn resolve_spec(&self, file_path: Seq<u8>) -> Option<Seq<u8>> {
        None
    }

    open spec fn load_spec(&self, file_path: Seq<u8>, content: Seq<u8>) -> Option<Seq<u8>> {
        Some(stripped_annotations_of(content))
    }

    open spec fn transform_spec(&self, file_path: Seq<u8>, content: Seq<u8>) -> Option<Seq<u8>> {
        Some(stripped_annotations_of(content))
    }

    fn on_resolve(&self, file_path: &Vec<u8>) -> (r: Option<Vec<u8>>) {
        None
    }

    fn on_load(&self, file_path: &Vec<u8>, content: &Vec<u8>) -> (r: Option<Vec<u8>>) {
        Some(remove_type_annotations(content))
    }

    fn on_transform(&self, file_path: &Vec<u8>, content: &Vec<u8>) -> (r: Option<Vec<u8>>) {
        Some(remove_type_annotations(content))
    }
}

} // verus!
