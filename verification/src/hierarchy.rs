//! Hierarchy extraction: rebuilds the instantiation tree from the design
//! dump, including the elaborator's default naming of anonymous generate
//! blocks (`genblkN`, disambiguated against explicitly named siblings by
//! prepending zeros before `N` until the name is free).
use crate::ast::{AstDocument, AstNode};
use crate::strmap::{assoc_view, lemma_strmap_upsert, str_eq, StrMap};
use vstd::prelude::*;
use vstd::seq_lib::*;
use vstd::set_lib::*;
use vstd::string::*;

verus! {

/// One hardware instantiation: which module it instantiates, under what
/// instance name, behind which generate-construct path, and what it
/// contains. Each instance owns its children outright.
#[derive(Debug, PartialEq)]
pub struct Instance {
    pub def_name: String,
    pub inst_name: String,
    pub hier_prefix: String,
    pub contents: Vec<Instance>,
}

/// Ghost image of an instance.
#[verifier::ext_equal]
pub ghost struct InstanceV {
    pub def_name: Seq<char>,
    pub inst_name: Seq<char>,
    pub hier_prefix: Seq<char>,
    pub contents: Seq<InstanceV>,
}

/// The ghost image of an instance list.
pub open spec fn instances_view(s: Seq<Instance>) -> Seq<InstanceV>
    decreases s,
{
    if s.len() == 0 {
        Seq::empty()
    } else {
        instances_view(s.drop_last()).push(instance_view(s.last()))
    }
}

/// The ghost image of one instance.
pub open spec fn instance_view(inst: Instance) -> InstanceV
    decreases inst,
{
    InstanceV {
        def_name: inst.def_name@,
        inst_name: inst.inst_name@,
        hier_prefix: inst.hier_prefix@,
        contents: instances_view(inst.contents@),
    }
}

pub proof fn lemma_instances_view(s: Seq<Instance>)
    ensures
        instances_view(s).len() == s.len(),
        forall|i: int| 0 <= i < s.len() ==> instances_view(s)[i] == instance_view(s[i]),
    decreases s,
{
    if s.len() > 0 {
        lemma_instances_view(s.drop_last());
    }
}

/// A decimal digit as its character.
pub open spec fn digit_char(d: nat) -> char {
    if d == 0 {
        '0'
    } else if d == 1 {
        '1'
    } else if d == 2 {
        '2'
    } else if d == 3 {
        '3'
    } else if d == 4 {
        '4'
    } else if d == 5 {
        '5'
    } else if d == 6 {
        '6'
    } else if d == 7 {
        '7'
    } else if d == 8 {
        '8'
    } else {
        '9'
    }
}

/// The decimal digits of a number, most significant first.
pub open spec fn dec_digits(n: nat) -> Seq<char>
    decreases n,
{
    if n < 10 {
        seq![digit_char(n)]
    } else {
        dec_digits(n / 10).push(digit_char(n % 10))
    }
}

/// Appends one decimal digit character to a string.
fn push_digit(s: &mut String, d: u64)
    requires
        d < 10,
    ensures
        final(s)@ == old(s)@ + seq![digit_char(d as nat)],
{
    if d == 0 {
        s.append("0");
        proof {
            reveal_strlit("0");
            assert("0"@ =~= seq![digit_char(0)]);
        }
    } else if d == 1 {
        s.append("1");
        proof {
            reveal_strlit("1");
            assert("1"@ =~= seq![digit_char(1)]);
        }
    } else if d == 2 {
        s.append("2");
        proof {
            reveal_strlit("2");
            assert("2"@ =~= seq![digit_char(2)]);
        }
    } else if d == 3 {
        s.append("3");
        proof {
            reveal_strlit("3");
            assert("3"@ =~= seq![digit_char(3)]);
        }
    } else if d == 4 {
        s.append("4");
        proof {
            reveal_strlit("4");
            assert("4"@ =~= seq![digit_char(4)]);
        }
    } else if d == 5 {
        s.append("5");
        proof {
            reveal_strlit("5");
            assert("5"@ =~= seq![digit_char(5)]);
        }
    } else if d == 6 {
        s.append("6");
        proof {
            reveal_strlit("6");
            assert("6"@ =~= seq![digit_char(6)]);
        }
    } else if d == 7 {
        s.append("7");
        proof {
            reveal_strlit("7");
            assert("7"@ =~= seq![digit_char(7)]);
        }
    } else if d == 8 {
        s.append("8");
        proof {
            reveal_strlit("8");
            assert("8"@ =~= seq![digit_char(8)]);
        }
    } else {
        s.append("9");
        proof {
            reveal_strlit("9");
            assert("9"@ =~= seq![digit_char(9)]);
        }
    }
}

/// Writes a number in decimal.
fn dec_string(n: u64) -> (r: String)
    ensures
        r@ == dec_digits(n as nat),
    decreases n,
{
    if n < 10 {
        let mut s = String::new();
        push_digit(&mut s, n);
        proof {
            assert(s@ =~= seq![digit_char(n as nat)]);
        }
        s
    } else {
        let mut s = dec_string(n / 10);
        push_digit(&mut s, n % 10);
        proof {
            assert(s@ =~= dec_digits((n / 10) as nat).push(digit_char((n % 10) as nat)));
        }
        s
    }
}

/// A run of zero characters.
pub open spec fn zeros(k: nat) -> Seq<char> {
    Seq::new(k, |i: int| '0')
}

/// The `k`-th candidate default name of an anonymous generate construct
/// with the given index: `genblk`, `k` zeros, then the index in decimal.
pub open spec fn genblk_candidate(index: nat, k: nat) -> Seq<char> {
    "genblk"@ + zeros(k) + dec_digits(index)
}

/// `k` is the first number of extra zeros that makes the candidate name
/// free of the sibling symbol table.
pub open spec fn genblk_first_free(index: nat, tab: Set<Seq<char>>, k: nat) -> bool {
    &&& !tab.contains(genblk_candidate(index, k))
    &&& forall|j: nat| j < k ==> tab.contains(#[trigger] genblk_candidate(index, j))
}

/// The default name of an anonymous generate construct: the first
/// candidate that no sibling already uses.
pub open spec fn spec_default_genblk_name(index: nat, tab: Set<Seq<char>>) -> Seq<char> {
    genblk_candidate(index, choose|k: nat| genblk_first_free(index, tab, k))
}

/// Candidates with different zero counts are different names.
proof fn lemma_candidate_distinct(index: nat, j: nat, k: nat)
    requires
        j != k,
    ensures
        genblk_candidate(index, j) != genblk_candidate(index, k),
{
    assert(genblk_candidate(index, j).len() == "genblk"@.len() + j + dec_digits(index).len());
    assert(genblk_candidate(index, k).len() == "genblk"@.len() + k + dec_digits(index).len());
}

/// At most one zero count is the first free one.
proof fn lemma_first_free_unique(index: nat, tab: Set<Seq<char>>, k1: nat, k2: nat)
    requires
        genblk_first_free(index, tab, k1),
        genblk_first_free(index, tab, k2),
    ensures
        k1 == k2,
{
    if k1 < k2 {
        assert(tab.contains(genblk_candidate(index, k1)));
    } else if k2 < k1 {
        assert(tab.contains(genblk_candidate(index, k2)));
    }
}

/// A list of strings holds a text.
pub open spec fn strings_contain(t: Seq<String>, x: Seq<char>) -> bool {
    exists|i: int| 0 <= i < t.len() && (#[trigger] t[i]@) == x
}

/// The set of texts a list of strings holds.
pub open spec fn names_set(t: Seq<String>) -> Set<Seq<char>> {
    t.map_values(|s: String| s@).to_set()
}

proof fn lemma_names_set(t: Seq<String>)
    ensures
        forall|x: Seq<char>| #[trigger] names_set(t).contains(x) <==> strings_contain(t, x),
{
    broadcast use vstd::seq::group_seq_axioms;

    assert forall|x: Seq<char>| #[trigger] names_set(t).contains(x) implies strings_contain(
        t,
        x,
    ) by {
        let m = t.map_values(|s: String| s@);
        let i = choose|i: int| 0 <= i < m.len() && m[i] == x;
        assert(t[i]@ == x);
    }
    assert forall|x: Seq<char>| strings_contain(t, x) implies #[trigger] names_set(
        t,
    ).contains(x) by {
        let m = t.map_values(|s: String| s@);
        let i = choose|i: int| 0 <= i < t.len() && (#[trigger] t[i]@) == x;
        assert(m[i] == x);
    }
}

/// Tests whether a list of strings holds a text.
#[verifier::loop_isolation(false)]
fn names_contain(table: &Vec<String>, x: &str) -> (r: bool)
    ensures
        r == strings_contain(table@, x@),
{
    let mut i: usize = 0;
    while i < table.len()
        invariant
            0 <= i <= table@.len(),
            forall|j: int| 0 <= j < i ==> (#[trigger] table@[j]@) != x@,
        decreases table@.len() - i,
    {
        if str_eq(table[i].as_str(), x) {
            return true;
        }
        i = i + 1;
    }
    false
}

/// Picks the default name of an anonymous generate construct with the
/// given 1-based construct index: `genblkN`, with zeros prepended before
/// `N` while an explicitly named sibling already uses the candidate.
#[verifier::loop_isolation(false)]
pub fn get_default_genblk_name(index: u64, symbol_table: &Vec<String>) -> (r: String)
    ensures
        r@ == spec_default_genblk_name(index as nat, names_set(symbol_table@)),
        genblk_first_free(
            index as nat,
            names_set(symbol_table@),
            (r@.len() - "genblk"@.len() - dec_digits(index as nat).len()) as nat,
        ),
{
    proof {
        lemma_names_set(symbol_table@);
    }
    let ghost tab = names_set(symbol_table@);
    let num = dec_string(index);
    let n = symbol_table.len();
    let mut prefix = String::from_str("genblk");
    let mut k: usize = 0;
    proof {
        assert(zeros(0) =~= Seq::<char>::empty());
        assert(prefix@ =~= "genblk"@ + zeros(0));
    }
    loop
        invariant
            k <= n,
            n == symbol_table@.len(),
            prefix@ == "genblk"@ + zeros(k as nat),
            forall|j: nat| j < k ==> tab.contains(#[trigger] genblk_candidate(index as nat, j)),
        decreases n - k,
    {
        let candidate = prefix.clone().concat(num.as_str());
        proof {
            assert(candidate@ == genblk_candidate(index as nat, k as nat));
        }
        if !names_contain(symbol_table, candidate.as_str()) {
            proof {
                assert(genblk_first_free(index as nat, tab, k as nat));
                let kk = choose|kc: nat| genblk_first_free(index as nat, tab, kc);
                lemma_first_free_unique(index as nat, tab, kk, k as nat);
                assert(candidate@.len() == "genblk"@.len() + k + dec_digits(index as nat).len());
            }
            return candidate;
        }
        // Every candidate tried so far is a distinct name in the table, so
        // fewer candidates than table entries have been tried.
        proof {
            let cands = Seq::new((k + 1) as nat, |j: int| genblk_candidate(index as nat, j as nat));
            assert forall|a: int, b: int| 0 <= a < b < cands.len() implies cands[a]
                != cands[b] by {
                lemma_candidate_distinct(index as nat, a as nat, b as nat);
            }
            cands.unique_seq_to_set();
            let m = symbol_table@.map_values(|s: String| s@);
            assert(cands.to_set().subset_of(m.to_set())) by {
                assert forall|x: Seq<char>| cands.to_set().contains(x) implies m.to_set().contains(
                    x,
                ) by {
                    let j = choose|j: int| 0 <= j < cands.len() && cands[j] == x;
                    assert(tab.contains(genblk_candidate(index as nat, j as nat)));
                    lemma_names_set(symbol_table@);
                    let i = choose|i: int|
                        0 <= i < symbol_table@.len() && (#[trigger] symbol_table@[i]@) == x;
                    assert(m[i] == x);
                }
            }
            lemma_len_subset(cands.to_set(), m.to_set());
            m.lemma_cardinality_of_set();
            assert(k + 1 <= symbol_table@.len());
        }
        let ghost old_prefix = prefix@;
        prefix.append("0");
        proof {
            reveal_strlit("0");
            assert(zeros((k + 1) as nat) =~= zeros(k as nat) + seq!['0']);
            assert(prefix@ =~= "genblk"@ + zeros((k + 1) as nat));
        }
        k = k + 1;
    }
}

/// The sibling symbol table of a scope: every non-empty name a member of
/// the scope declares.
pub open spec fn spec_symtab(members: Seq<AstNode>) -> Set<Seq<char>> {
    Set::new(
        |s: Seq<char>|
            exists|i: int|
                0 <= i < members.len() && (#[trigger] members[i]).name is Some
                    && members[i].name->0@ == s && s.len() > 0,
    )
}

/// The instances contributed by the members of one scope, walked in order
/// under the scope's symbol table and the hierarchical prefix reached so
/// far. A named instance contributes itself (with contents walked under a
/// fresh prefix); an instantiated generate block contributes its members'
/// instances under the extended prefix; a generate block array contributes
/// its elements' members under indexed prefixes; everything else, and any
/// construct missing a required field, contributes nothing.
pub open spec fn spec_walk(members: Seq<AstNode>, tab: Set<Seq<char>>, prefix: Seq<char>) -> Seq<
    InstanceV,
>
    decreases members,
{
    if members.len() == 0 {
        Seq::empty()
    } else {
        let m = members[0];
        let rest = members.drop_first();
        let here: Seq<InstanceV> = if m.kind_is("Instance"@) {
            if m.has_nonempty_name() && m.body is Some && m.body->0.name is Some
                && m.body->0.name->0@.len() > 0 {
                seq![
                    InstanceV {
                        def_name: m.body->0.name->0@,
                        inst_name: m.name->0@,
                        hier_prefix: prefix,
                        contents: spec_walk(
                            m.body->0.members@,
                            spec_symtab(m.body->0.members@),
                            Seq::empty(),
                        ),
                    },
                ]
            } else {
                Seq::empty()
            }
        } else if m.kind_is("GenerateBlock"@) {
            if m.name is Some && m.construct_index is Some && m.is_uninstantiated is Some {
                if m.is_uninstantiated->0 {
                    Seq::empty()
                } else {
                    let seg = if m.name->0@.len() == 0 {
                        spec_default_genblk_name(m.construct_index->0 as nat, tab)
                    } else {
                        m.name->0@
                    };
                    spec_walk(m.members@, spec_symtab(m.members@), prefix + "."@ + seg)
                }
            } else {
                Seq::empty()
            }
        } else if m.kind_is("GenerateBlockArray"@) {
            if m.name is Some && m.construct_index is Some {
                let seg = if m.name->0@.len() == 0 {
                    spec_default_genblk_name(m.construct_index->0 as nat, tab)
                } else {
                    m.name->0@
                };
                spec_array_elems(m.members@, prefix + "."@ + seg)
            } else {
                Seq::empty()
            }
        } else {
            Seq::empty()
        };
        here + spec_walk(rest, tab, prefix)
    }
}

/// The instances contributed by the elements of a generate block array:
/// each element (a generate block with a construct index) is addressed by
/// `[index]` appended to the array's path segment, and its members are
/// walked under that prefix and the element's own symbol table.
pub open spec fn spec_array_elems(elems: Seq<AstNode>, arr_prefix: Seq<char>) -> Seq<InstanceV>
    decreases elems,
{
    if elems.len() == 0 {
        Seq::empty()
    } else {
        let el = elems[0];
        let here: Seq<InstanceV> = if el.kind_is("GenerateBlock"@) && el.construct_index
            is Some {
            spec_walk(
                el.members@,
                spec_symtab(el.members@),
                arr_prefix + "["@ + dec_digits(el.construct_index->0 as nat) + "]"@,
            )
        } else {
            Seq::empty()
        };
        here + spec_array_elems(elems.drop_first(), arr_prefix)
    }
}

/// The top-level instance table: one entry per named top-level instance
/// with a named bound body, keyed by definition name; a repeated
/// definition name keeps the later tree.
pub open spec fn spec_hierarchy(
    members: Seq<AstNode>,
    acc: Seq<(Seq<char>, InstanceV)>,
) -> Seq<(Seq<char>, InstanceV)>
    decreases members,
{
    if members.len() == 0 {
        acc
    } else {
        let m = members[0];
        let rest = members.drop_first();
        if m.kind_is("Instance"@) && m.has_nonempty_name() && m.body is Some
            && m.body->0.name is Some && m.body->0.name->0@.len() > 0 {
            let inst = InstanceV {
                def_name: m.body->0.name->0@,
                inst_name: m.name->0@,
                hier_prefix: Seq::empty(),
                contents: spec_walk(
                    m.body->0.members@,
                    spec_symtab(m.body->0.members@),
                    Seq::empty(),
                ),
            };
            spec_hierarchy(rest, crate::strmap::assoc_upsert(acc, inst.def_name, inst))
        } else {
            spec_hierarchy(rest, acc)
        }
    }
}

/// Collects the non-empty names the members of a scope declare.
#[verifier::loop_isolation(false)]
fn create_symbol_table(members: &Vec<AstNode>) -> (r: Vec<String>)
    ensures
        names_set(r@) == spec_symtab(members@),
{
    let mut table: Vec<String> = Vec::new();
    let mut i: usize = 0;
    while i < members.len()
        invariant
            0 <= i <= members@.len(),
            forall|x: Seq<char>|
                #[trigger] strings_contain(table@, x) <==> exists|j: int|
                    0 <= j < i && (#[trigger] members@[j]).name is Some && members@[j].name->0@
                        == x && x.len() > 0,
        decreases members@.len() - i,
    {
        let keep = match &members[i].name {
            Some(n) => n.unicode_len() > 0,
            None => false,
        };
        if keep {
            let n = match &members[i].name {
                Some(n) => n.clone(),
                None => String::new(),
            };
            let ghost old_table = table@;
            table.push(n);
            proof {
                assert forall|x: Seq<char>| #[trigger] strings_contain(table@, x) implies exists|
                    j: int,
                |
                    0 <= j < i + 1 && (#[trigger] members@[j]).name is Some && members@[j].name->0@
                        == x && x.len() > 0 by {
                    let t = choose|t: int| 0 <= t < table@.len() && (#[trigger] table@[t]@) == x;
                    if t < old_table.len() {
                        assert(strings_contain(old_table, x));
                    } else {
                        assert(members@[i as int].name->0@ == x);
                    }
                }
                assert forall|x: Seq<char>|
                    exists|j: int|
                        0 <= j < i + 1 && (#[trigger] members@[j]).name is Some
                            && members@[j].name->0@ == x && x.len() > 0 implies #[trigger] strings_contain(
                    table@,
                    x,
                ) by {
                    let j = choose|j: int|
                        0 <= j < i + 1 && (#[trigger] members@[j]).name is Some
                            && members@[j].name->0@ == x && x.len() > 0;
                    if j < i {
                        assert(strings_contain(old_table, x));
                        let t = choose|t: int|
                            0 <= t < old_table.len() && (#[trigger] old_table[t]@) == x;
                        assert(table@[t]@ == x);
                    } else {
                        assert(table@[table@.len() - 1]@ == x);
                    }
                }
            }
        } else {
            proof {
                assert forall|x: Seq<char>|
                    exists|j: int|
                        0 <= j < i + 1 && (#[trigger] members@[j]).name is Some
                            && members@[j].name->0@ == x && x.len() > 0 implies #[trigger] strings_contain(
                    table@,
                    x,
                ) by {
                    let j = choose|j: int|
                        0 <= j < i + 1 && (#[trigger] members@[j]).name is Some
                            && members@[j].name->0@ == x && x.len() > 0;
                    assert(j < i);
                }
            }
        }
        i = i + 1;
    }
    proof {
        lemma_names_set(table@);
        assert(names_set(table@) =~= spec_symtab(members@));
    }
    table
}

/// Walks one scope's members, producing the instances they contribute
/// under the given prefix.
#[verifier::loop_isolation(false)]
fn walk_scope(members: &Vec<AstNode>, prefix: &String) -> (r: Vec<Instance>)
    ensures
        instances_view(r@) == spec_walk(members@, spec_symtab(members@), prefix@),
    decreases members@, 1int,
{
    let table = create_symbol_table(members);
    let ghost tab = spec_symtab(members@);
    let mut out: Vec<Instance> = Vec::new();
    let mut i: usize = 0;
    proof {
        assert(members@.subrange(0, members@.len() as int) =~= members@);
        assert(instances_view(out@) + spec_walk(members@, tab, prefix@) =~= spec_walk(
            members@,
            tab,
            prefix@,
        ));
    }
    while i < members.len()
        invariant
            0 <= i <= members@.len(),
            instances_view(out@) + spec_walk(
                members@.subrange(i as int, members@.len() as int),
                tab,
                prefix@,
            ) == spec_walk(members@, tab, prefix@),
        decreases members@.len() - i,
    {
        let ghost rem = members@.subrange(i as int, members@.len() as int);
        proof {
            assert(rem[0] == members@[i as int]);
            assert(rem.drop_first() =~= members@.subrange(i + 1, members@.len() as int));
        }
        let m = &members[i];
        let kind_instance = match &m.kind {
            Some(k) => str_eq(k.as_str(), "Instance"),
            None => false,
        };
        let kind_genblk = match &m.kind {
            Some(k) => str_eq(k.as_str(), "GenerateBlock"),
            None => false,
        };
        let kind_genarr = match &m.kind {
            Some(k) => str_eq(k.as_str(), "GenerateBlockArray"),
            None => false,
        };
        if kind_instance {
            match (&m.name, &m.body) {
                (Some(iname), Some(body)) => match &body.name {
                    Some(bname) => {
                        if iname.unicode_len() > 0 && bname.unicode_len() > 0 {
                            proof {
                                assert(decreases_to!(
                                    members@ => members@[i as int].body->0.members@));
                            }
                            let fresh = String::new();
                            let contents = walk_scope(&body.members, &fresh);
                            let inst = Instance {
                                def_name: bname.clone(),
                                inst_name: iname.clone(),
                                hier_prefix: prefix.clone(),
                                contents,
                            };
                            let ghost old_out = out@;
                            let ghost iv = instance_view(inst);
                            out.push(inst);
                            proof {
                                assert(out@.drop_last() =~= old_out);
                                assert(instances_view(out@) =~= instances_view(old_out).push(iv));
                                assert(instances_view(out@) + spec_walk(
                                    rem.drop_first(),
                                    tab,
                                    prefix@,
                                ) =~= instances_view(old_out) + (seq![iv] + spec_walk(
                                    rem.drop_first(),
                                    tab,
                                    prefix@,
                                )));
                            }
                        }
                    },
                    None => {},
                },
                _ => {},
            }
        } else if kind_genblk {
            match (&m.name, &m.construct_index, &m.is_uninstantiated) {
                (Some(name), Some(cidx), Some(uninst)) => {
                    if !*uninst {
                        let cidx = *cidx;
                        let seg = if name.unicode_len() == 0 {
                        get_default_genblk_name(cidx, &table)
                    } else {
                            name.clone()
                        };
                        let mut np = prefix.clone();
                        np.append(".");
                        np.append(seg.as_str());
                        proof {
                            assert(np@ == prefix@ + "."@ + seg@);
                            assert(decreases_to!(members@ => members@[i as int].members@));
                        }
                        let mut sub = walk_scope(&m.members, &np);
                        let ghost old_out = out@;
                        let ghost subv = sub@;
                        out.append(&mut sub);
                        proof {
                            lemma_instances_view(out@);
                            lemma_instances_view(old_out);
                            lemma_instances_view(subv);
                            assert(instances_view(out@) =~= instances_view(old_out)
                                + instances_view(subv));
                            assert(instances_view(out@) + spec_walk(rem.drop_first(), tab, prefix@)
                                =~= instances_view(old_out) + (instances_view(subv) + spec_walk(
                                rem.drop_first(),
                                tab,
                                prefix@,
                            )));
                        }
                    }
                },
                _ => {},
            }
        } else if kind_genarr {
            match (&m.name, &m.construct_index) {
                (Some(name), Some(cidx)) => {
                    let cidx = *cidx;
                    let seg = if name.unicode_len() == 0 {
                        get_default_genblk_name(cidx, &table)
                    } else {
                        name.clone()
                    };
                    let mut np = prefix.clone();
                    np.append(".");
                    np.append(seg.as_str());
                    proof {
                        assert(np@ == prefix@ + "."@ + seg@);
                        assert(decreases_to!(members@ => members@[i as int].members@));
                    }
                    let mut sub = walk_array(&m.members, &np);
                    let ghost old_out = out@;
                    let ghost subv = sub@;
                    out.append(&mut sub);
                    proof {
                        lemma_instances_view(out@);
                        lemma_instances_view(old_out);
                        lemma_instances_view(subv);
                        assert(instances_view(out@) =~= instances_view(old_out) + instances_view(
                            subv,
                        ));
                        assert(instances_view(out@) + spec_walk(rem.drop_first(), tab, prefix@)
                            =~= instances_view(old_out) + (instances_view(subv) + spec_walk(
                            rem.drop_first(),
                            tab,
                            prefix@,
                        )));
                    }
                },
                _ => {},
            }
        }
        i = i + 1;
    }
    proof {
        assert(members@.subrange(members@.len() as int, members@.len() as int) =~= Seq::<
            AstNode,
        >::empty());
        assert(instances_view(out@) + Seq::<InstanceV>::empty() =~= instances_view(out@));
    }
    out
}

/// Walks the elements of a generate block array under the array's path
/// segment.
#[verifier::loop_isolation(false)]
fn walk_array(elems: &Vec<AstNode>, arr_prefix: &String) -> (r: Vec<Instance>)
    ensures
        instances_view(r@) == spec_array_elems(elems@, arr_prefix@),
    decreases elems@, 0int,
{
    let mut out: Vec<Instance> = Vec::new();
    let mut j: usize = 0;
    proof {
        assert(elems@.subrange(0, elems@.len() as int) =~= elems@);
        assert(instances_view(out@) + spec_array_elems(elems@, arr_prefix@) =~= spec_array_elems(
            elems@,
            arr_prefix@,
        ));
    }
    while j < elems.len()
        invariant
            0 <= j <= elems@.len(),
            instances_view(out@) + spec_array_elems(
                elems@.subrange(j as int, elems@.len() as int),
                arr_prefix@,
            ) == spec_array_elems(elems@, arr_prefix@),
        decreases elems@.len() - j,
    {
        let ghost rem = elems@.subrange(j as int, elems@.len() as int);
        proof {
            assert(rem[0] == elems@[j as int]);
            assert(rem.drop_first() =~= elems@.subrange(j + 1, elems@.len() as int));
        }
        let el = &elems[j];
        let el_ok = (match &el.kind {
            Some(k) => str_eq(k.as_str(), "GenerateBlock"),
            None => false,
        }) && (match &el.construct_index {
            Some(_) => true,
            None => false,
        });
        if el_ok {
            let cidx = match &el.construct_index {
                Some(c) => *c,
                None => 0,
            };
            let idx_str = dec_string(cidx);
            let mut np = arr_prefix.clone();
            np.append("[");
            np.append(idx_str.as_str());
            np.append("]");
            proof {
                assert(np@ == arr_prefix@ + "["@ + dec_digits(cidx as nat) + "]"@);
                assert(decreases_to!(elems@ => elems@[j as int].members@));
            }
            let mut sub = walk_scope(&el.members, &np);
            let ghost old_out = out@;
            let ghost subv = sub@;
            out.append(&mut sub);
            proof {
                lemma_instances_view(out@);
                lemma_instances_view(old_out);
                lemma_instances_view(subv);
                assert(instances_view(out@) =~= instances_view(old_out) + instances_view(subv));
                assert(instances_view(out@) + spec_array_elems(rem.drop_first(), arr_prefix@)
                    =~= instances_view(old_out) + (instances_view(subv) + spec_array_elems(
                    rem.drop_first(),
                    arr_prefix@,
                )));
            }
        }
        j = j + 1;
    }
    proof {
        assert(elems@.subrange(elems@.len() as int, elems@.len() as int) =~= Seq::<
            AstNode,
        >::empty());
        assert(instances_view(out@) + Seq::<InstanceV>::empty() =~= instances_view(out@));
    }
    out
}

/// The instance image function.
pub open spec fn instance_view_fn() -> spec_fn(Instance) -> InstanceV {
    |inst: Instance| instance_view(inst)
}

/// The ghost image of a built hierarchy table.
pub open spec fn hierarchy_table_view(entries: Seq<(String, Instance)>) -> Seq<
    (Seq<char>, InstanceV),
> {
    assoc_view(entries, instance_view_fn())
}

/// Rebuilds the instantiation hierarchy of the design: one tree per named
/// top-level instance, keyed by its definition name, with every instance
/// annotated by the generate-construct path it sits behind, exactly as
/// [`spec_hierarchy`] lays down.
#[verifier::loop_isolation(false)]
pub fn extract_hierarchy(ast: &AstDocument) -> (r: StrMap<Instance>)
    ensures
        r.wf(),
        hierarchy_table_view(r@) == spec_hierarchy(ast.design.members@, Seq::empty()),
{
    let members = &ast.design.members;
    let mut table: StrMap<Instance> = StrMap::new();
    let mut i: usize = 0;
    proof {
        assert(members@.subrange(0, members@.len() as int) =~= members@);
        assert(hierarchy_table_view(table@) =~= Seq::<(Seq<char>, InstanceV)>::empty());
    }
    while i < members.len()
        invariant
            0 <= i <= members@.len(),
            table.wf(),
            spec_hierarchy(
                members@.subrange(i as int, members@.len() as int),
                hierarchy_table_view(table@),
            ) == spec_hierarchy(members@, Seq::empty()),
        decreases members@.len() - i,
    {
        let ghost rem = members@.subrange(i as int, members@.len() as int);
        proof {
            assert(rem[0] == members@[i as int]);
            assert(rem.drop_first() =~= members@.subrange(i + 1, members@.len() as int));
        }
        let m = &members[i];
        let kind_instance = match &m.kind {
            Some(k) => str_eq(k.as_str(), "Instance"),
            None => false,
        };
        if kind_instance {
            match (&m.name, &m.body) {
                (Some(iname), Some(body)) => match &body.name {
                    Some(bname) => {
                        if iname.unicode_len() > 0 && bname.unicode_len() > 0 {
                            let fresh = String::new();
                            let contents = walk_scope(&body.members, &fresh);
                            let def_name = bname.clone();
                            let inst = Instance {
                                def_name: def_name.clone(),
                                inst_name: iname.clone(),
                                hier_prefix: String::new(),
                                contents,
                            };
                            let ghost key_snap = def_name;
                            let ghost inst_snap = inst;
                            let ghost old_table = table;
                            table.insert(def_name, inst);
                            proof {
                                lemma_strmap_upsert(
                                    old_table,
                                    table,
                                    key_snap,
                                    inst_snap,
                                    instance_view_fn(),
                                );
                            }
                        }
                    },
                    None => {},
                },
                _ => {},
            }
        }
        i = i + 1;
    }
    proof {
        assert(members@.subrange(members@.len() as int, members@.len() as int) =~= Seq::<
            AstNode,
        >::empty());
    }
    table
}

} // verus!
