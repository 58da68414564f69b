//! Port extraction: walks the design tree's instances and decodes every
//! port of every module body into a bit-accurate [`Type`], and collects the
//! names of the module definitions.
use crate::ast::{AstDocument, AstNode};
use crate::parser::{parse_type_definition, spec_descriptor, type_view, TypeV};
use crate::strmap::{insert_to_vacant, str_eq, StrMap};
use crate::types::Type;
use vstd::prelude::*;

verus! {

/// The direction of a port.
#[derive(Debug, PartialEq, Eq, Structural, Clone, Copy)]
pub enum PortDir {
    Input,
    Output,
    InOut,
}

impl PortDir {
    /// Decodes the dump's direction token.
    pub fn from_str(s: &str) -> (r: Result<PortDir, String>)
        ensures
            (match r {
                Ok(d) => spec_port_dir(s@) == Some(d),
                Err(_) => spec_port_dir(s@) is None,
            }),
    {
        if str_eq(s, "In") {
            Ok(PortDir::Input)
        } else if str_eq(s, "Out") {
            Ok(PortDir::Output)
        } else if str_eq(s, "InOut") {
            Ok(PortDir::InOut)
        } else {
            Err(String::from_str("Unsupported I/O direction"))
        }
    }
}

/// The direction a token denotes, if it is one of the three the dump uses.
pub open spec fn spec_port_dir(d: Seq<char>) -> Option<PortDir> {
    if d == "In"@ {
        Some(PortDir::Input)
    } else if d == "Out"@ {
        Some(PortDir::Output)
    } else if d == "InOut"@ {
        Some(PortDir::InOut)
    } else {
        None
    }
}

/// One decoded port of a module.
#[derive(Debug, PartialEq)]
pub struct Port {
    pub dir: PortDir,
    pub name: String,
    pub ty: Type,
}

/// Ghost image of a port.
#[verifier::ext_equal]
pub ghost struct PortV {
    pub dir: PortDir,
    pub name: Seq<char>,
    pub ty: TypeV,
}

/// The ghost image of one port.
pub open spec fn port_view(p: Port) -> PortV {
    PortV { dir: p.dir, name: p.name@, ty: type_view(p.ty) }
}

/// The ghost image of a port list.
pub open spec fn ports_view(s: Seq<Port>) -> Seq<PortV>
    decreases s,
{
    if s.len() == 0 {
        Seq::empty()
    } else {
        ports_view(s.drop_last()).push(port_view(s.last()))
    }
}

pub proof fn lemma_ports_view(s: Seq<Port>)
    ensures
        ports_view(s).len() == s.len(),
        forall|i: int| 0 <= i < s.len() ==> ports_view(s)[i] == port_view(s[i]),
    decreases s,
{
    if s.len() > 0 {
        lemma_ports_view(s.drop_last());
    }
}

/// Why an extraction failed.
#[derive(Debug, PartialEq, Eq, Structural, Clone, Copy)]
pub enum ExtractError {
    /// A port's type descriptor did not parse, or was the `<error>`
    /// sentinel the elaborator leaves for a failed type.
    MalformedTypeDescriptor,
    /// An interface port, which this extraction does not model.
    UnsupportedConstruct,
    /// Two modules under one name in a single extraction.
    DuplicateDefinition,
    /// A required field was missing or a discriminant unrecognized; the
    /// dump broke its own shape, which no mode recovers from.
    SchemaViolation,
}

/// The ports of one module body, walked left to right. A body member
/// without a kind is a schema violation; a `Port` member must carry name,
/// direction and type; an undecodable type or an interface port is dropped
/// in lenient mode and fatal in strict mode; a bad direction token is
/// always fatal.
pub open spec fn spec_module_ports(members: Seq<AstNode>, skip: bool) -> Result<
    Seq<PortV>,
    ExtractError,
>
    decreases members,
{
    if members.len() == 0 {
        Ok(Seq::empty())
    } else {
        let m = members[0];
        let rest = members.drop_first();
        if m.kind is None {
            Err(ExtractError::SchemaViolation)
        } else if m.kind->0@ == "Port"@ {
            if m.name is None || m.direction is None || m.type_desc is None {
                Err(ExtractError::SchemaViolation)
            } else {
                let t = m.type_desc->0@;
                if t == "<error>"@ || spec_descriptor(t) is None {
                    if skip {
                        spec_module_ports(rest, skip)
                    } else {
                        Err(ExtractError::MalformedTypeDescriptor)
                    }
                } else {
                    match spec_port_dir(m.direction->0@) {
                        None => Err(ExtractError::SchemaViolation),
                        Some(d) => match spec_module_ports(rest, skip) {
                            Err(e) => Err(e),
                            Ok(ps) => Ok(
                                seq![
                                    PortV {
                                        dir: d,
                                        name: m.name->0@,
                                        ty: spec_descriptor(t)->0,
                                    },
                                ] + ps,
                            ),
                        },
                    }
                }
            }
        } else if m.kind->0@ == "InterfacePort"@ {
            if skip {
                spec_module_ports(rest, skip)
            } else {
                Err(ExtractError::UnsupportedConstruct)
            }
        } else {
            spec_module_ports(rest, skip)
        }
    }
}

/// The members of an instance's bound body, or nothing.
pub open spec fn spec_body_members(m: AstNode) -> Seq<AstNode> {
    match m.body {
        Some(b) => b.members@,
        None => Seq::empty(),
    }
}

/// A key is present in a table.
pub open spec fn table_contains(acc: Seq<(Seq<char>, Seq<PortV>)>, key: Seq<char>) -> bool {
    exists|i: int| 0 <= i < acc.len() && (#[trigger] acc[i].0) == key
}

/// The per-module port table over the design members, walked left to right
/// with the table built so far. A member without a kind is a schema
/// violation; only named `Instance` members contribute; a repeated module
/// name is fatal in either mode.
pub open spec fn spec_ports_table(
    members: Seq<AstNode>,
    skip: bool,
    acc: Seq<(Seq<char>, Seq<PortV>)>,
) -> Result<Seq<(Seq<char>, Seq<PortV>)>, ExtractError>
    decreases members,
{
    if members.len() == 0 {
        Ok(acc)
    } else {
        let m = members[0];
        let rest = members.drop_first();
        if m.kind is None {
            Err(ExtractError::SchemaViolation)
        } else if m.kind->0@ != "Instance"@ {
            spec_ports_table(rest, skip, acc)
        } else if m.name is None {
            Err(ExtractError::SchemaViolation)
        } else if m.name->0@.len() == 0 {
            spec_ports_table(rest, skip, acc)
        } else {
            match spec_module_ports(spec_body_members(m), skip) {
                Err(e) => Err(e),
                Ok(ps) => {
                    if table_contains(acc, m.name->0@) {
                        Err(ExtractError::DuplicateDefinition)
                    } else {
                        spec_ports_table(rest, skip, acc.push((m.name->0@, ps)))
                    }
                },
            }
        }
    }
}

/// The ghost image of a built port table.
pub open spec fn ports_table_view(entries: Seq<(String, Vec<Port>)>) -> Seq<
    (Seq<char>, Seq<PortV>),
> {
    Seq::new(entries.len(), |i: int| (entries[i].0@, ports_view(entries[i].1@)))
}

/// Law: an interface port among a body's members is dropped in lenient
/// mode and fatal in strict mode, wherever it stands.
pub proof fn lemma_interface_port(members: Seq<AstNode>)
    requires
        members.len() > 0,
        members[0].kind_is("InterfacePort"@),
    ensures
        spec_module_ports(members, true) == spec_module_ports(members.drop_first(), true),
        spec_module_ports(members, false) == Err::<Seq<PortV>, ExtractError>(
            ExtractError::UnsupportedConstruct,
        ),
{
    reveal_strlit("InterfacePort");
    reveal_strlit("Port");
    assert("InterfacePort"@.len() != "Port"@.len());
}

/// Law: a named instance whose module name the table already holds is a
/// fatal duplicate, in either mode, whatever its ports decode to.
pub proof fn lemma_duplicate_definition(
    members: Seq<AstNode>,
    skip: bool,
    acc: Seq<(Seq<char>, Seq<PortV>)>,
)
    requires
        members.len() > 0,
        members[0].kind_is("Instance"@),
        members[0].has_nonempty_name(),
        spec_module_ports(spec_body_members(members[0]), skip) is Ok,
        table_contains(acc, members[0].name->0@),
    ensures
        spec_ports_table(members, skip, acc) == Err::<Seq<(Seq<char>, Seq<PortV>)>, ExtractError>(
            ExtractError::DuplicateDefinition,
        ),
{
}

/// Decodes the ports of one module body.
#[verifier::loop_isolation(false)]
fn module_ports(members: &Vec<AstNode>, skip_unsupported: bool) -> (r: Result<
    Vec<Port>,
    ExtractError,
>)
    ensures
        (match r {
            Ok(ps) => spec_module_ports(members@, skip_unsupported) == Ok::<Seq<PortV>, ExtractError>(ports_view(ps@)),
            Err(e) => spec_module_ports(members@, skip_unsupported) == Err::<
                Seq<PortV>,
                ExtractError,
            >(e),
        }),
{
    let mut ports: Vec<Port> = Vec::new();
    let mut j: usize = 0;
    proof {
        assert(members@.subrange(0, members@.len() as int) =~= members@);
    }
    while j < members.len()
        invariant
            0 <= j <= members@.len(),
            (match spec_module_ports(members@.subrange(j as int, members@.len() as int),
                skip_unsupported,
            ) {
                Err(e) => spec_module_ports(members@, skip_unsupported) == Err::<
                    Seq<PortV>,
                    ExtractError,
                >(e),
                Ok(ps) => spec_module_ports(members@, skip_unsupported) == Ok::<
                    Seq<PortV>,
                    ExtractError,
                >(ports_view(ports@) + ps),
            }),
        decreases members@.len() - j,
    {
        let ghost rem = members@.subrange(j as int, members@.len() as int);
        proof {
            assert(rem[0] == members@[j as int]);
            assert(rem.drop_first() =~= members@.subrange(j + 1, members@.len() as int));
        }
        let m = &members[j];
        let kind = match &m.kind {
            None => {
                return Err(ExtractError::SchemaViolation);
            },
            Some(k) => k,
        };
        if str_eq(kind.as_str(), "Port") {
            let pname = match &m.name {
                None => {
                    return Err(ExtractError::SchemaViolation);
                },
                Some(x) => x,
            };
            let pdir = match &m.direction {
                None => {
                    return Err(ExtractError::SchemaViolation);
                },
                Some(x) => x,
            };
            let ptype = match &m.type_desc {
                None => {
                    return Err(ExtractError::SchemaViolation);
                },
                Some(x) => x,
            };
            if str_eq(ptype.as_str(), "<error>") {
                if !skip_unsupported {
                    return Err(ExtractError::MalformedTypeDescriptor);
                }
            } else {
                match parse_type_definition(ptype.as_str()) {
                    Err(_) => {
                        if !skip_unsupported {
                            return Err(ExtractError::MalformedTypeDescriptor);
                        }
                    },
                    Ok(ty) => {
                        let dir = match PortDir::from_str(pdir.as_str()) {
                            Err(_) => {
                                return Err(ExtractError::SchemaViolation);
                            },
                            Ok(d) => d,
                        };
                        let port = Port { dir, name: pname.clone(), ty };
                        let ghost old_ports = ports@;
                        let ghost pv = port_view(port);
                        ports.push(port);
                        proof {
                            assert(ports@.drop_last() =~= old_ports);
                            assert(ports_view(ports@) =~= ports_view(old_ports).push(pv));
                            let rest_res = spec_module_ports(
                                members@.subrange(j + 1, members@.len() as int),
                                skip_unsupported,
                            );
                            if rest_res is Ok {
                                let ps2 = rest_res->Ok_0;
                                assert(ports_view(ports@) + ps2 =~= ports_view(old_ports) + (
                                seq![pv] + ps2));
                            }
                        }
                    },
                }
            }
        } else if str_eq(kind.as_str(), "InterfacePort") {
            if !skip_unsupported {
                return Err(ExtractError::UnsupportedConstruct);
            }
        }
        j = j + 1;
    }
    proof {
        assert(members@.subrange(members@.len() as int, members@.len() as int) =~= Seq::<
            AstNode,
        >::empty());
        assert(ports_view(ports@) + Seq::<PortV>::empty() =~= ports_view(ports@));
    }
    Ok(ports)
}

/// Builds the per-module port table of the design: for every named
/// instance, the decoded ports of its bound body, keyed by module name.
///
/// In lenient mode (`skip_unsupported`) a port whose type cannot be
/// decoded, and any interface port, is dropped; in strict mode either is
/// fatal. A repeated module name, a missing required field, or an
/// unrecognized direction token is fatal in both modes, exactly as
/// [`spec_ports_table`] lays down.
#[verifier::loop_isolation(false)]
pub fn extract_ports(ast: &AstDocument, skip_unsupported: bool) -> (r: Result<
    StrMap<Vec<Port>>,
    ExtractError,
>)
    ensures
        (match r {
            Ok(m) => m.wf() && spec_ports_table(ast.design.members@, skip_unsupported, Seq::empty())
                == Ok::<Seq<(Seq<char>, Seq<PortV>)>, ExtractError>(ports_table_view(m@)),
            Err(e) => spec_ports_table(ast.design.members@, skip_unsupported, Seq::empty())
                == Err::<Seq<(Seq<char>, Seq<PortV>)>, ExtractError>(e),
        }),
{
    let members = &ast.design.members;
    let mut table: StrMap<Vec<Port>> = StrMap::new();
    let mut i: usize = 0;
    proof {
        assert(members@.subrange(0, members@.len() as int) =~= members@);
        assert(ports_table_view(table@) =~= Seq::<(Seq<char>, Seq<PortV>)>::empty());
    }
    while i < members.len()
        invariant
            0 <= i <= members@.len(),
            table.wf(),
            spec_ports_table(
                members@.subrange(i as int, members@.len() as int),
                skip_unsupported,
                ports_table_view(table@),
            ) == spec_ports_table(members@, skip_unsupported, Seq::empty()),
        decreases members@.len() - i,
    {
        let ghost rem = members@.subrange(i as int, members@.len() as int);
        proof {
            assert(rem[0] == members@[i as int]);
            assert(rem.drop_first() =~= members@.subrange(i + 1, members@.len() as int));
        }
        let m = &members[i];
        let kind = match &m.kind {
            None => {
                return Err(ExtractError::SchemaViolation);
            },
            Some(k) => k,
        };
        if str_eq(kind.as_str(), "Instance") {
            let mname = match &m.name {
                None => {
                    return Err(ExtractError::SchemaViolation);
                },
                Some(x) => x,
            };
            if mname.unicode_len() > 0 {
                let ports = match &m.body {
                    Some(b) => {
                        match module_ports(&b.members, skip_unsupported) {
                            Err(e) => {
                                return Err(e);
                            },
                            Ok(ps) => ps,
                        }
                    },
                    None => {
                        proof {
                            assert(spec_body_members(members@[i as int]) =~= Seq::<
                                AstNode,
                            >::empty());
                        }
                        Vec::new()
                    },
                };
                proof {
                    if m.body is None {
                        assert(ports_view(ports@) =~= Seq::<PortV>::empty());
                    }
                    assert(spec_module_ports(spec_body_members(members@[i as int]),
                        skip_unsupported,
                    ) == Ok::<Seq<PortV>, ExtractError>(ports_view(ports@)));
                }
                let ghost old_map = table;
                let ghost pview = ports_view(ports@);
                match insert_to_vacant(&mut table, mname.clone(), ports) {
                    Err(_) => {
                        proof {
                            let k = choose|k: int|
                                0 <= k < old_map@.len() && (#[trigger] old_map@[k].0@) == mname@;
                            assert(ports_table_view(old_map@)[k].0 == mname@);
                            assert(table_contains(ports_table_view(old_map@), mname@));
                        }
                        return Err(ExtractError::DuplicateDefinition);
                    },
                    Ok(()) => {
                        proof {
                            assert(!table_contains(ports_table_view(old_map@), mname@)) by {
                                if table_contains(ports_table_view(old_map@), mname@) {
                                    let k = choose|k: int|
                                        0 <= k < ports_table_view(old_map@).len() && (
                                        #[trigger] ports_table_view(old_map@)[k].0) == mname@;
                                    assert(old_map@[k].0@ == mname@);
                                }
                            }
                            assert(ports_table_view(table@) =~= ports_table_view(old_map@).push(
                                (mname@, pview),
                            ));
                        }
                    },
                }
            }
        }
        i = i + 1;
    }
    proof {
        assert(members@.subrange(members@.len() as int, members@.len() as int) =~= Seq::<
            AstNode,
        >::empty());
    }
    Ok(table)
}

/// The names of the module definitions in the definition list.
pub open spec fn spec_modules(defs: Seq<AstNode>) -> Seq<Seq<char>>
    decreases defs,
{
    if defs.len() == 0 {
        Seq::empty()
    } else {
        let d = defs[0];
        let rest = spec_modules(defs.drop_first());
        if d.kind_is("Definition"@) && d.definition_kind is Some && d.definition_kind->0@
            == "Module"@ && d.name is Some {
            seq![d.name->0@] + rest
        } else {
            rest
        }
    }
}

/// The ghost image of a string list.
pub open spec fn strings_view(s: Seq<String>) -> Seq<Seq<char>> {
    Seq::new(s.len(), |i: int| s[i]@)
}

/// Collects the names of all module definitions of the dump, in order.
#[verifier::loop_isolation(false)]
pub fn extract_modules(ast: &AstDocument) -> (r: Vec<String>)
    ensures
        strings_view(r@) == spec_modules(ast.definitions@),
{
    let defs = &ast.definitions;
    let mut names: Vec<String> = Vec::new();
    let mut i: usize = 0;
    proof {
        assert(defs@.subrange(0, defs@.len() as int) =~= defs@);
    }
    while i < defs.len()
        invariant
            0 <= i <= defs@.len(),
            strings_view(names@) + spec_modules(defs@.subrange(i as int, defs@.len() as int))
                == spec_modules(defs@),
        decreases defs@.len() - i,
    {
        let ghost rem = defs@.subrange(i as int, defs@.len() as int);
        proof {
            assert(rem[0] == defs@[i as int]);
            assert(rem.drop_first() =~= defs@.subrange(i + 1, defs@.len() as int));
        }
        let d = &defs[i];
        let is_module_def = (match &d.kind {
            Some(k) => str_eq(k.as_str(), "Definition"),
            None => false,
        }) && (match &d.definition_kind {
            Some(k) => str_eq(k.as_str(), "Module"),
            None => false,
        });
        if is_module_def {
            match &d.name {
                Some(n) => {
                    let ghost old_names = names@;
                    names.push(n.clone());
                    proof {
                        assert(strings_view(names@) =~= strings_view(old_names).push(n@));
                        assert(strings_view(old_names).push(n@) + spec_modules(
                            rem.drop_first(),
                        ) =~= strings_view(old_names) + (seq![n@] + spec_modules(
                            rem.drop_first(),
                        )));
                    }
                },
                None => {},
            }
        }
        i = i + 1;
    }
    proof {
        assert(defs@.subrange(defs@.len() as int, defs@.len() as int) =~= Seq::<AstNode>::empty());
        assert(strings_view(names@) + Seq::<Seq<char>>::empty() =~= strings_view(names@));
    }
    names
}

} // verus!
