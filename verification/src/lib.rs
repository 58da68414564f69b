//! Post-processing of the elaborated AST dump that a SystemVerilog front
//! end produces: bit-accurate port types, the instantiation hierarchy, and
//! package parameter tables, all computed from the structured form of the
//! dump ([`AstDocument`]).
use vstd::prelude::*;

mod ast;
mod extract;
mod hierarchy;
mod package;
mod parser;
mod strmap;
mod types;

pub use ast::{AstDocument, AstNode};
pub use extract::{
    extract_modules, extract_ports, lemma_duplicate_definition, lemma_interface_port,
    ExtractError, Port, PortDir,
};
pub use hierarchy::{extract_hierarchy, get_default_genblk_name, Instance};
pub use package::{extract_packages, Package, Parameter};
pub use parser::{parse_type_definition, MalformedTypeDescriptor};
pub use strmap::{insert_to_vacant, StrMap};
pub use types::{
    lemma_logic_width, lemma_struct_width, lemma_union_width, Field, IntValue, Range, Type,
    Variant, WidthError,
};

verus! {

/// How to drive the external elaborator: sources, tops, include
/// directories, preprocessor defines, parameter overrides, and library
/// lookup options.
#[derive(Debug)]
pub struct SlangConfig<'a> {
    pub sources: &'a [&'a str],
    pub tops: &'a [&'a str],
    pub incdirs: &'a [&'a str],
    pub defines: &'a [(&'a str, &'a str)],
    pub parameters: &'a [(&'a str, &'a str)],
    pub libfiles: &'a [&'a str],
    pub libdirs: &'a [&'a str],
    pub libexts: &'a [&'a str],
    pub ignore_unknown_modules: bool,
    pub ignore_protected: bool,
    pub timescale: Option<&'a str>,
}

impl<'a> Default for SlangConfig<'a> {
    /// An empty run: no inputs, unknown modules ignored, protected
    /// envelopes ignored, no timescale override.
    fn default() -> (r: Self)
        ensures
            r.sources@.len() == 0,
            r.tops@.len() == 0,
            r.incdirs@.len() == 0,
            r.defines@.len() == 0,
            r.parameters@.len() == 0,
            r.libfiles@.len() == 0,
            r.libdirs@.len() == 0,
            r.libexts@.len() == 0,
            r.ignore_unknown_modules == true,
            r.ignore_protected == true,
            r.timescale is None,
    {
        SlangConfig {
            sources: &[],
            tops: &[],
            incdirs: &[],
            defines: &[],
            parameters: &[],
            libfiles: &[],
            libdirs: &[],
            libexts: &[],
            ignore_unknown_modules: true,
            ignore_protected: true,
            timescale: None,
        }
    }
}

/// The elaborator options that make it tolerate protected envelopes, in
/// the order they are passed.
pub open spec fn protect_options() -> Seq<Seq<char>> {
    seq![
        "--enable-legacy-protect"@,
        "-Wno-protected-envelope"@,
        "-Wno-expected-protect-arg"@,
        "-Wno-expected-protect-keyword"@,
        "-Wno-extra-protect-end"@,
        "-Wno-invalid-encoding-byte"@,
        "-Wno-invalid-pragma-number"@,
        "-Wno-invalid-pragma-viewport"@,
        "-Wno-nested-protect-begin"@,
        "-Wno-protect-arglist"@,
        "-Wno-protect-encoding-bytes"@,
        "-Wno-protected-envelope"@,
        "-Wno-raw-protect-eof"@,
        "-Wno-unknown-protect-encoding"@,
        "-Wno-unknown-protect-keyword"@,
        "-Wno-unknown-protect-option"@,
    ]
}

/// Appends the options that make the elaborator ignore protected
/// envelopes: exactly [`protect_options`], after the arguments already
/// present.
pub fn push_options_to_ignore_protected(args: &mut Vec<&str>)
    ensures
        final(args)@.len() == old(args)@.len() + protect_options().len(),
        forall|i: int| 0 <= i < old(args)@.len() ==> final(args)@[i] == old(args)@[i],
        forall|j: int|
            0 <= j < protect_options().len() ==> (#[trigger] final(args)@[old(args)@.len() + j])@
                == protect_options()[j],
{
    args.push("--enable-legacy-protect");
    args.push("-Wno-protected-envelope");
    args.push("-Wno-expected-protect-arg");
    args.push("-Wno-expected-protect-keyword");
    args.push("-Wno-extra-protect-end");
    args.push("-Wno-invalid-encoding-byte");
    args.push("-Wno-invalid-pragma-number");
    args.push("-Wno-invalid-pragma-viewport");
    args.push("-Wno-nested-protect-begin");
    args.push("-Wno-protect-arglist");
    args.push("-Wno-protect-encoding-bytes");
    args.push("-Wno-protected-envelope");
    args.push("-Wno-raw-protect-eof");
    args.push("-Wno-unknown-protect-encoding");
    args.push("-Wno-unknown-protect-keyword");
    args.push("-Wno-unknown-protect-option");
}

} // verus!
