//! Package extraction: collects, for every package of every compilation
//! unit, the raw textual parameter values the elaborator already folded.
//! No numeric interpretation happens here; callers parse a value when they
//! need one.
use crate::ast::{AstDocument, AstNode};
use crate::strmap::{assoc_contains, assoc_first_index, assoc_upsert, assoc_view, lemma_strmap_upsert, str_eq, StrMap};
use vstd::prelude::*;
use vstd::string::*;

verus! {

/// One parameter of a package: its name and its already-folded textual
/// value (an integer literal, or a type descriptor for a type alias).
#[derive(Debug, PartialEq)]
pub struct Parameter {
    pub name: String,
    pub value: String,
}

impl Parameter {
    /// Parses the parameter's textual value into any type that implements
    /// `FromStr` (an integer, an arbitrary-precision integer, ...).
    ///
    /// Relies on `str::parse` from std; nothing is assumed about which
    /// values parse for a caller-chosen type.
    #[verifier::external_body]
    pub fn parse<T, E>(&self) -> Result<T, E> where T: core::str::FromStr<Err = E> {
        self.value.parse()
    }
}

/// Ghost image of a parameter.
#[verifier::ext_equal]
pub ghost struct ParameterV {
    pub name: Seq<char>,
    pub value: Seq<char>,
}

/// The ghost image of one parameter.
pub open spec fn parameter_view(p: Parameter) -> ParameterV {
    ParameterV { name: p.name@, value: p.value@ }
}

/// One package: its name and its parameter table.
#[derive(Debug, PartialEq)]
pub struct Package {
    pub name: String,
    pub parameters: StrMap<Parameter>,
}

impl Package {
    /// Looks a parameter up by name.
    pub fn get(&self, key: &str) -> (r: Option<&Parameter>)
        ensures
            (match r {
                Some(p) => exists|i: int|
                    0 <= i < self.parameters@.len() && (#[trigger] self.parameters@[i].0@) == key@
                        && *p == self.parameters@[i].1,
                None => !self.parameters.spec_contains_key(key@),
            }),
    {
        self.parameters.get(key)
    }
}

/// Ghost image of a package.
#[verifier::ext_equal]
pub ghost struct PackageV {
    pub name: Seq<char>,
    pub parameters: Seq<(Seq<char>, ParameterV)>,
}

/// The parameter table of one package body, walked left to right; a later
/// parameter under an already-seen name replaces the earlier one.
pub open spec fn spec_package_params(
    members: Seq<AstNode>,
    acc: Seq<(Seq<char>, ParameterV)>,
) -> Seq<(Seq<char>, ParameterV)>
    decreases members,
{
    if members.len() == 0 {
        acc
    } else {
        let m = members[0];
        let rest = members.drop_first();
        if m.kind_is("Parameter"@) && m.value is Some && m.name is Some {
            let pv = ParameterV { name: m.name->0@, value: m.value->0@ };
            spec_package_params(rest, assoc_upsert(acc, m.name->0@, pv))
        } else {
            spec_package_params(rest, acc)
        }
    }
}

/// The packages of one compilation unit, added to the table built so far.
pub open spec fn spec_packages_in_unit(
    members: Seq<AstNode>,
    acc: Seq<(Seq<char>, PackageV)>,
) -> Seq<(Seq<char>, PackageV)>
    decreases members,
{
    if members.len() == 0 {
        acc
    } else {
        let m = members[0];
        let rest = members.drop_first();
        if m.kind_is("Package"@) && m.name is Some {
            let pkg = PackageV {
                name: m.name->0@,
                parameters: spec_package_params(m.members@, Seq::empty()),
            };
            spec_packages_in_unit(rest, assoc_upsert(acc, m.name->0@, pkg))
        } else {
            spec_packages_in_unit(rest, acc)
        }
    }
}

/// The package table of the design: every package of every compilation
/// unit, in order.
pub open spec fn spec_packages(members: Seq<AstNode>, acc: Seq<(Seq<char>, PackageV)>) -> Seq<
    (Seq<char>, PackageV),
>
    decreases members,
{
    if members.len() == 0 {
        acc
    } else {
        let m = members[0];
        let rest = members.drop_first();
        if m.kind_is("CompilationUnit"@) {
            spec_packages(rest, spec_packages_in_unit(m.members@, acc))
        } else {
            spec_packages(rest, acc)
        }
    }
}

/// The parameter image function.
pub open spec fn param_view_fn() -> spec_fn(Parameter) -> ParameterV {
    |p: Parameter| parameter_view(p)
}

/// The package image function.
pub open spec fn package_view_fn() -> spec_fn(Package) -> PackageV {
    |p: Package| package_view(p)
}

/// The ghost image of a built parameter table.
pub open spec fn params_table_view(entries: Seq<(String, Parameter)>) -> Seq<
    (Seq<char>, ParameterV),
> {
    assoc_view(entries, param_view_fn())
}

/// The ghost image of one built package.
pub open spec fn package_view(p: Package) -> PackageV {
    PackageV { name: p.name@, parameters: params_table_view(p.parameters@) }
}

/// The ghost image of a built package table.
pub open spec fn packages_table_view(entries: Seq<(String, Package)>) -> Seq<
    (Seq<char>, PackageV),
> {
    assoc_view(entries, package_view_fn())
}

/// Collects the package parameter tables of the design: for every package
/// of every compilation unit, its parameters with their raw textual
/// values, exactly as [`spec_packages`] lays down.
#[verifier::loop_isolation(false)]
pub fn extract_packages(ast: &AstDocument) -> (r: StrMap<Package>)
    ensures
        r.wf(),
        packages_table_view(r@) == spec_packages(ast.design.members@, Seq::empty()),
{
    let members = &ast.design.members;
    let mut table: StrMap<Package> = StrMap::new();
    let mut i: usize = 0;
    proof {
        assert(members@.subrange(0, members@.len() as int) =~= members@);
        assert(packages_table_view(table@) =~= Seq::<(Seq<char>, PackageV)>::empty());
    }
    while i < members.len()
        invariant
            0 <= i <= members@.len(),
            table.wf(),
            spec_packages(
                members@.subrange(i as int, members@.len() as int),
                packages_table_view(table@),
            ) == spec_packages(members@, Seq::empty()),
        decreases members@.len() - i,
    {
        let ghost rem = members@.subrange(i as int, members@.len() as int);
        proof {
            assert(rem[0] == members@[i as int]);
            assert(rem.drop_first() =~= members@.subrange(i + 1, members@.len() as int));
        }
        let m = &members[i];
        let is_unit = match &m.kind {
            Some(k) => str_eq(k.as_str(), "CompilationUnit"),
            None => false,
        };
        if is_unit {
            let ghost at_unit = packages_table_view(table@);
            let unit_members = &m.members;
            let mut k: usize = 0;
            proof {
                assert(unit_members@.subrange(0, unit_members@.len() as int) =~= unit_members@);
            }
            while k < unit_members.len()
                invariant
                    0 <= k <= unit_members@.len(),
                    table.wf(),
                    spec_packages_in_unit(
                        unit_members@.subrange(k as int, unit_members@.len() as int),
                        packages_table_view(table@),
                    ) == spec_packages_in_unit(unit_members@, at_unit),
                decreases unit_members@.len() - k,
            {
                let ghost urem = unit_members@.subrange(k as int, unit_members@.len() as int);
                proof {
                    assert(urem[0] == unit_members@[k as int]);
                    assert(urem.drop_first() =~= unit_members@.subrange(
                        k + 1,
                        unit_members@.len() as int,
                    ));
                }
                let u = &unit_members[k];
                let is_package = match &u.kind {
                    Some(uk) => str_eq(uk.as_str(), "Package"),
                    None => false,
                };
                if is_package {
                    match &u.name {
                        None => {},
                        Some(pkg_name) => {
                            let mut params: StrMap<Parameter> = StrMap::new();
                            let pkg_members = &u.members;
                            let mut t: usize = 0;
                            proof {
                                assert(pkg_members@.subrange(0, pkg_members@.len() as int)
                                    =~= pkg_members@);
                                assert(params_table_view(params@) =~= Seq::<
                                    (Seq<char>, ParameterV),
                                >::empty());
                            }
                            while t < pkg_members.len()
                                invariant
                                    0 <= t <= pkg_members@.len(),
                                    params.wf(),
                                    spec_package_params(
                                        pkg_members@.subrange(t as int, pkg_members@.len() as int),
                                        params_table_view(params@),
                                    ) == spec_package_params(pkg_members@, Seq::empty()),
                                decreases pkg_members@.len() - t,
                            {
                                let ghost prem = pkg_members@.subrange(
                                    t as int,
                                    pkg_members@.len() as int,
                                );
                                proof {
                                    assert(prem[0] == pkg_members@[t as int]);
                                    assert(prem.drop_first() =~= pkg_members@.subrange(
                                        t + 1,
                                        pkg_members@.len() as int,
                                    ));
                                }
                                let pm = &pkg_members[t];
                                let is_param = match &pm.kind {
                                    Some(pk) => str_eq(pk.as_str(), "Parameter"),
                                    None => false,
                                };
                                if is_param {
                                    match (&pm.value, &pm.name) {
                                        (Some(pval), Some(pname)) => {
                                            let param = Parameter {
                                                name: pname.clone(),
                                                value: pval.clone(),
                                            };
                                            let key = pname.clone();
                                            let ghost key_snap = key;
                                            let ghost param_snap = param;
                                            let ghost old_params = params;
                                            params.insert(key, param);
                                            proof {
                                                lemma_strmap_upsert(
                                                    old_params,
                                                    params,
                                                    key_snap,
                                                    param_snap,
                                                    param_view_fn(),
                                                );
                                            }
                                        },
                                        _ => {},
                                    }
                                }
                                t = t + 1;
                            }
                            proof {
                                assert(pkg_members@.subrange(
                                    pkg_members@.len() as int,
                                    pkg_members@.len() as int,
                                ) =~= Seq::<AstNode>::empty());
                            }
                            let package = Package { name: pkg_name.clone(), parameters: params };
                            let key = pkg_name.clone();
                            let ghost key_snap = key;
                            let ghost package_snap = package;
                            let ghost old_table = table;
                            table.insert(key, package);
                            proof {
                                lemma_strmap_upsert(
                                    old_table,
                                    table,
                                    key_snap,
                                    package_snap,
                                    package_view_fn(),
                                );
                            }
                        },
                    }
                }
                k = k + 1;
            }
            proof {
                assert(unit_members@.subrange(
                    unit_members@.len() as int,
                    unit_members@.len() as int,
                ) =~= Seq::<AstNode>::empty());
            }
        }
        i = i + 1;
    }
    proof {
        assert(members@.subrange(members@.len() as int, members@.len() as int) =~= Seq::<
            AstNode,
        >::empty());
    }
    table
}

} // verus!
