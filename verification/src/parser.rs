//! Reading a document: the text is cut into its tree, the tree is built into
//! a value, and the placeholders met on the way are resolved in two passes.

use vstd::prelude::*;
use crate::builder::{build, lemma_build_wf, parse_value};
use crate::context::{record_all, Context};
use crate::error::{Error, Fault};
use crate::resolver::{
    apply_groups, get_reference_values, lemma_apply_groups_wf, resolve_groups, set_reference_values,
};
use crate::text::to_chars;
use crate::tokenizer::{document, tokenize};
use crate::value::{Json, Value};

verus! {

/// The sigil of the placeholders that [`parse`] reads: `&{target}`.
pub const AMPERSAND: char = '&';

/// The value of the document `text`, whose placeholders start with `sigil`:
/// the value built from the text's tree, with each placeholder replaced by
/// the string that its target leads to; or the first fault met.
pub open spec fn document_value(text: Seq<char>, sigil: char) -> Result<Json, Fault> {
    match document(text, sigil) {
        Err(at) => Err(Fault::Syntax(at)),
        Ok(tree) => {
            let built = build(text, tree, Seq::empty());
            match built.result {
                Err(fault) => Err(fault),
                Ok(json) => {
                    let resolved = resolve_groups(record_all(Seq::empty(), built.found), json, 0);
                    match resolved.1 {
                        Some(fault) => Err(fault),
                        None => {
                            let applied = apply_groups(json, resolved.0, sigil, 0);
                            match applied.fault {
                                Some(fault) => Err(fault),
                                None => Ok(applied.node),
                            }
                        },
                    }
                },
            }
        },
    }
}

/// The value of a document holds no key twice in any of its objects.
pub proof fn lemma_document_value_wf(text: Seq<char>, sigil: char)
    ensures
        document_value(text, sigil) matches Ok(json) ==> json.wf(),
{
    if let Ok(tree) = document(text, sigil) {
        let built = build(text, tree, Seq::empty());
        lemma_build_wf(text, tree, Seq::empty());
        if let Ok(json) = built.result {
            let resolved = resolve_groups(record_all(Seq::empty(), built.found), json, 0);
            lemma_apply_groups_wf(json, resolved.0, sigil, 0);
        }
    }
}

/// A document without placeholders has the value that is built from its
/// tree: the two passes that follow the build change nothing.
pub proof fn lemma_document_without_placeholders(text: Seq<char>, sigil: char)
    requires
        document(text, sigil) is Ok,
        build(text, document(text, sigil)->Ok_0, Seq::empty()).found.len() == 0,
    ensures
        document_value(text, sigil) == build(
            text,
            document(text, sigil)->Ok_0,
            Seq::empty(),
        ).result,
{
    let built = build(text, document(text, sigil)->Ok_0, Seq::empty());
    assert(built.found =~= Seq::empty());
}

/// Reads the document `input`, whose placeholders start with `sigil`.
pub fn parse_with(input: &str, sigil: char) -> (r: Result<Value, Error>)
    ensures
        match document_value(input@, sigil) {
            Ok(json) => r matches Ok(v) && v@ == json,
            Err(fault) => r matches Err(e) && e@ == fault,
        },
        r matches Ok(v) ==> v@.wf(),
{
    proof {
        lemma_document_value_wf(input@, sigil);
    }
    let src = to_chars(input);
    let mut ctx = Context::default();
    let root = match tokenize(&src, sigil) {
        Ok(root) => root,
        Err(e) => {
            return Err(e);
        },
    };
    let mut json = match parse_value(&src, &root, &mut ctx) {
        Ok(json) => json,
        Err(e) => {
            return Err(e);
        },
    };
    match get_reference_values(&json, &mut ctx) {
        Ok(_) => {},
        Err(e) => {
            return Err(e);
        },
    }
    match set_reference_values(&mut json, &ctx, sigil) {
        Ok(_) => {},
        Err(e) => {
            return Err(e);
        },
    }
    Ok(json)
}

/// Reads a document whose placeholders are written `&{target}`.
pub fn parse(input: &str) -> (r: Result<Value, Error>)
    ensures
        match document_value(input@, AMPERSAND) {
            Ok(json) => r matches Ok(v) && v@ == json,
            Err(fault) => r matches Err(e) && e@ == fault,
        },
        r matches Ok(v) ==> v@.wf(),
{
    parse_with(input, AMPERSAND)
}

} // verus!
