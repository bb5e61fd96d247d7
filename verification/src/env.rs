//! Environment variables as lists of name and value, and the rules by which
//! the overrides of a command combine with the environment that
//! the process inherits.

use vstd::prelude::*;
use vstd::string::StringExecFns;
use crate::text::same;

verus! {

/// A list of environment variables, each a name and a value.
pub type Vars = Seq<(Seq<char>, Seq<char>)>;

/// No name occurs twice in the list.
pub open spec fn distinct_names(vars: Vars) -> bool {
    forall|i: int, j: int| 0 <= i < j < vars.len() ==> (#[trigger] vars[i]).0 != (#[trigger] vars[j]).0
}

/// Some variable in the list is named `name`.
pub open spec fn has_name(vars: Vars, name: Seq<char>) -> bool {
    exists|i: int| 0 <= i < vars.len() && (#[trigger] vars[i]).0 == name
}

/// The place of the first variable named `name`, or the length of the list
/// where there is none.
pub open spec fn first_named(vars: Vars, name: Seq<char>) -> int
    decreases vars.len(),
{
    if vars.len() == 0 || vars[0].0 == name {
        0
    } else {
        1 + first_named(vars.drop_first(), name)
    }
}

/// The list after `name` has been set to `value`: the first variable of that
/// name takes the new value where it stands; a new name goes to the end.
pub open spec fn set_var(vars: Vars, name: Seq<char>, value: Seq<char>) -> Vars {
    let at = first_named(vars, name);
    if at < vars.len() {
        vars.update(at, (name, value))
    } else {
        vars.push((name, value))
    }
}

/// Tells the inherited variables that no override replaces.
pub open spec fn survives(overrides: Vars) -> spec_fn((Seq<char>, Seq<char>)) -> bool {
    |var: (Seq<char>, Seq<char>)| !has_name(overrides, var.0)
}

/// The environment that a process is given: the inherited variables that no
/// override replaces, unless the inherited environment is dropped, and then
/// the overrides.
pub open spec fn merged(inherited: Vars, clear: bool, overrides: Vars) -> Vars {
    if clear {
        overrides
    } else {
        inherited.filter(survives(overrides)) + overrides
    }
}

/// The variable as the kernel takes it: name, an equals sign, value.
pub open spec fn assignment(var: (Seq<char>, Seq<char>)) -> Seq<char> {
    var.0 + seq!['='] + var.1
}

/// Each variable of the list as the kernel takes it.
pub open spec fn assignments(vars: Vars) -> Seq<Seq<char>> {
    Seq::new(vars.len(), |i: int| assignment(vars[i]))
}

/// `first_named` is the least place that holds the name.
pub proof fn lemma_first_named(vars: Vars, name: Seq<char>)
    ensures
        0 <= first_named(vars, name) <= vars.len(),
        first_named(vars, name) < vars.len() ==> vars[first_named(vars, name)].0 == name,
        forall|i: int| 0 <= i < first_named(vars, name) ==> (#[trigger] vars[i]).0 != name,
        first_named(vars, name) < vars.len() <==> has_name(vars, name),
    decreases vars.len(),
{
    if vars.len() == 0 || vars[0].0 == name {
    } else {
        let rest = vars.drop_first();
        lemma_first_named(rest, name);
        let at = first_named(rest, name);
        assert forall|i: int| 0 <= i < 1 + at implies (#[trigger] vars[i]).0 != name by {
            if i > 0 {
                assert(vars[i] == rest[i - 1]);
            }
        }
        if at < rest.len() {
            assert(vars[1 + at] == rest[at]);
        }
        if has_name(vars, name) {
            let i = choose|i: int| 0 <= i < vars.len() && (#[trigger] vars[i]).0 == name;
            assert(rest[i - 1] == vars[i]);
        }
    }
}

/// Setting a variable leaves exactly one variable of that name where none
/// occurred twice before, gives it the new value, and keeps every other
/// variable as it was.
pub proof fn set_var_overwrites(vars: Vars, name: Seq<char>, value: Seq<char>)
    requires
        distinct_names(vars),
    ensures
        distinct_names(set_var(vars, name, value)),
        set_var(vars, name, value).contains((name, value)),
        forall|var: (Seq<char>, Seq<char>)|
            #[trigger] set_var(vars, name, value).contains(var) && var.0 == name ==> var.1 == value,
        forall|var: (Seq<char>, Seq<char>)|
            var.0 != name ==> (#[trigger] set_var(vars, name, value).contains(var) <==> vars.contains(
                var,
            )),
        set_var(vars, name, value).len() == if has_name(vars, name) {
            vars.len()
        } else {
            vars.len() + 1
        },
{
    lemma_first_named(vars, name);
    let at = first_named(vars, name);
    let next = set_var(vars, name, value);
    assert(next[at] == (name, value));
    assert forall|var: (Seq<char>, Seq<char>)| #[trigger]
        next.contains(var) && var.0 == name implies var.1 == value by {
        let i = choose|i: int| 0 <= i < next.len() && next[i] == var;
        if i != at {
            assert(next[i] == vars[i]);
            if at < vars.len() {
                assert(vars[i].0 != vars[at].0);
            }
        }
    }
    assert forall|var: (Seq<char>, Seq<char>)| var.0 != name implies (#[trigger] next.contains(var)
        <==> vars.contains(var)) by {
        if next.contains(var) {
            let i = choose|i: int| 0 <= i < next.len() && next[i] == var;
            assert(vars[i] == var);
        }
        if vars.contains(var) {
            let i = choose|i: int| 0 <= i < vars.len() && vars[i] == var;
            assert(next[i] == var);
        }
    }
    assert forall|i: int, j: int| 0 <= i < j < next.len() implies (#[trigger] next[i]).0 != (
    #[trigger] next[j]).0 by {
        if i != at && j != at {
            assert(vars[i].0 != vars[j].0);
        } else if i == at {
            assert(vars[j].0 != name);
        } else {
            assert(vars[i].0 != name);
        }
    }
}

/// In the environment that a process is given, a name that has an override
/// has the override's value and no other; where the inherited environment is
/// dropped nothing else is left; where it is kept, the variables of every
/// other name are the inherited ones.
pub proof fn overrides_win(inherited: Vars, clear: bool, overrides: Vars)
    requires
        distinct_names(overrides),
    ensures
        forall|var: (Seq<char>, Seq<char>)| #[trigger]
            overrides.contains(var) ==> merged(inherited, clear, overrides).contains(var),
        forall|var: (Seq<char>, Seq<char>)|
            has_name(overrides, var.0) && #[trigger] merged(inherited, clear, overrides).contains(
                var,
            ) ==> overrides.contains(var),
        forall|var: (Seq<char>, Seq<char>)|
            !has_name(overrides, var.0) ==> (#[trigger] merged(inherited, clear, overrides).contains(
                var,
            ) <==> !clear && inherited.contains(var)),
        distinct_names(inherited) ==> distinct_names(merged(inherited, clear, overrides)),
{
    let kept = inherited.filter(survives(overrides));
    let all = merged(inherited, clear, overrides);
    assert forall|var: (Seq<char>, Seq<char>)| #[trigger] overrides.contains(var) implies all.contains(
        var,
    ) by {
        let i = choose|i: int| 0 <= i < overrides.len() && overrides[i] == var;
        if clear {
        } else {
            assert(all[kept.len() + i] == var);
        }
    }
    assert forall|var: (Seq<char>, Seq<char>)|
        has_name(overrides, var.0) && #[trigger] all.contains(var) implies overrides.contains(var) by {
        let i = choose|i: int| 0 <= i < all.len() && all[i] == var;
        if !clear {
            if i < kept.len() {
                inherited.lemma_filter_pred(survives(overrides), i);
            } else {
                assert(overrides[i - kept.len()] == var);
            }
        }
    }
    assert forall|var: (Seq<char>, Seq<char>)| !has_name(overrides, var.0) implies (#[trigger] all.contains(
        var,
    ) <==> !clear && inherited.contains(var)) by {
        if all.contains(var) {
            let i = choose|i: int| 0 <= i < all.len() && all[i] == var;
            if clear {
                assert(overrides[i] == var);
            } else if i < kept.len() {
                assert(kept[i] == var);
                lemma_filtered_is_member(inherited, survives(overrides), i);
            } else {
                assert(overrides[i - kept.len()] == var);
            }
        }
        if !clear && inherited.contains(var) {
            let i = choose|i: int| 0 <= i < inherited.len() && inherited[i] == var;
            inherited.lemma_filter_contains(survives(overrides), i);
            let k = choose|k: int| 0 <= k < kept.len() && kept[k] == var;
            assert(all[k] == var);
        }
    }
    if distinct_names(inherited) && !clear {
        lemma_filter_keeps_distinct(inherited, survives(overrides));
        assert forall|i: int, j: int| 0 <= i < j < all.len() implies (#[trigger] all[i]).0 != (
        #[trigger] all[j]).0 by {
            if j < kept.len() {
                assert(kept[i].0 != kept[j].0);
            } else if i >= kept.len() {
                assert(overrides[i - kept.len()].0 != overrides[j - kept.len()].0);
            } else {
                inherited.lemma_filter_pred(survives(overrides), i);
                assert(overrides[j - kept.len()].0 == all[j].0);
            }
        }
    }
}

/// Every member of a filtered list is a member of the list.
proof fn lemma_filtered_is_member(vars: Vars, keep: spec_fn((Seq<char>, Seq<char>)) -> bool, k: int)
    requires
        0 <= k < vars.filter(keep).len(),
    ensures
        vars.contains(vars.filter(keep)[k]),
    decreases vars.len(),
{
    reveal(Seq::filter);
    if vars.len() > 0 {
        let front = vars.drop_last();
        if k < front.filter(keep).len() {
            lemma_filtered_is_member(front, keep, k);
            let i = choose|i: int| 0 <= i < front.len() && front[i] == front.filter(keep)[k];
            assert(vars[i] == front[i]);
        } else {
            assert(vars[vars.len() - 1] == vars.last());
        }
    }
}

/// A filtered list keeps its members in their order, so that names which were
/// distinct stay distinct.
proof fn lemma_filter_keeps_distinct(vars: Vars, keep: spec_fn((Seq<char>, Seq<char>)) -> bool)
    requires
        distinct_names(vars),
    ensures
        distinct_names(vars.filter(keep)),
    decreases vars.len(),
{
    reveal(Seq::filter);
    if vars.len() > 0 {
        let front = vars.drop_last();
        assert forall|i: int, j: int| 0 <= i < j < front.len() implies (#[trigger] front[i]).0 != (
        #[trigger] front[j]).0 by {
            assert(vars[i].0 != vars[j].0);
        }
        lemma_filter_keeps_distinct(front, keep);
        let kept = front.filter(keep);
        if keep(vars.last()) {
            let all = kept.push(vars.last());
            assert forall|i: int, j: int| 0 <= i < j < all.len() implies (#[trigger] all[i]).0 != (
            #[trigger] all[j]).0 by {
                if j < kept.len() {
                    assert(kept[i].0 != kept[j].0);
                } else {
                    lemma_filtered_is_member(front, keep, i);
                    let k = choose|k: int| 0 <= k < front.len() && front[k] == kept[i];
                    assert(vars[k].0 != vars[vars.len() - 1].0);
                }
            }
        }
    }
}

/// Tells whether some variable of the list is named `name`.
pub fn contains_name(vars: &Vec<(String, String)>, name: &str) -> (found: bool)
    ensures
        found == has_name(vars.deep_view(), name@),
{
    let mut i: usize = 0;
    while i < vars.len()
        invariant
            i <= vars.len(),
            forall|k: int| 0 <= k < i ==> (#[trigger] vars.deep_view()[k]).0 != name@,
        decreases vars.len() - i,
    {
        if same(vars[i].0.as_str(), name) {
            assert(vars.deep_view()[i as int].0 == name@);
            return true;
        }
        i += 1;
    }
    false
}

/// Sets `name` to `value` in the list, as [`set_var`] says.
pub fn assign(vars: &mut Vec<(String, String)>, name: String, value: String)
    ensures
        final(vars).deep_view() == set_var(old(vars).deep_view(), name@, value@),
{
    let ghost before = vars.deep_view();
    let mut i: usize = 0;
    while i < vars.len()
        invariant
            i <= vars.len(),
            vars.deep_view() == before,
            before == old(vars).deep_view(),
            forall|k: int| 0 <= k < i ==> (#[trigger] before[k]).0 != name@,
        decreases vars.len() - i,
    {
        if vars[i].0 == name {
            proof {
                lemma_first_named(before, name@);
                assert(before[i as int].0 == name@);
            }
            vars.set(i, (name, value));
            assert(vars.deep_view() =~= set_var(before, name@, value@));
            return ;
        }
        i += 1;
    }
    proof {
        lemma_first_named(before, name@);
    }
    vars.push((name, value));
    assert(vars.deep_view() =~= set_var(before, name@, value@));
}

/// The environment that a process is given, as [`merged`] says.
pub fn merge(inherited: &Vec<(String, String)>, clear: bool, overrides: &Vec<(String, String)>) -> (all:
    Vec<(String, String)>)
    ensures
        all.deep_view() == merged(inherited.deep_view(), clear, overrides.deep_view()),
{
    let ghost old_vars = inherited.deep_view();
    let ghost new_vars = overrides.deep_view();
    let mut all: Vec<(String, String)> = Vec::new();
    if !clear {
        let mut i: usize = 0;
        assert(old_vars.subrange(0, 0).filter(survives(new_vars)) =~= Seq::empty()) by {
            reveal(Seq::filter);
        }
        while i < inherited.len()
            invariant
                i <= inherited.len(),
                old_vars == inherited.deep_view(),
                new_vars == overrides.deep_view(),
                all.deep_view() =~= old_vars.subrange(0, i as int).filter(survives(new_vars)),
            decreases inherited.len() - i,
        {
            let ghost seen = old_vars.subrange(0, i as int);
            let found = contains_name(overrides, inherited[i].0.as_str());
            proof {
                assert(old_vars.subrange(0, i + 1) =~= seen.push(old_vars[i as int]));
                seen.lemma_filter_push(old_vars[i as int], survives(new_vars));
            }
            if !found {
                all.push((inherited[i].0.clone(), inherited[i].1.clone()));
            }
            i += 1;
        }
        assert(old_vars.subrange(0, i as int) =~= old_vars);
    }
    let ghost kept = all.deep_view();
    let mut j: usize = 0;
    while j < overrides.len()
        invariant
            j <= overrides.len(),
            new_vars == overrides.deep_view(),
            all.deep_view() =~= kept + new_vars.subrange(0, j as int),
        decreases overrides.len() - j,
    {
        let ghost so_far = all.deep_view();
        let var = (overrides[j].0.clone(), overrides[j].1.clone());
        assert(var.deep_view() == new_vars[j as int]);
        all.push(var);
        assert(all.deep_view() =~= so_far.push(new_vars[j as int]));
        assert(new_vars.subrange(0, j + 1) =~= new_vars.subrange(0, j as int).push(new_vars[j as int]));
        j += 1;
    }
    assert(new_vars.subrange(0, j as int) =~= new_vars);
    assert(Seq::<(Seq<char>, Seq<char>)>::empty() + new_vars =~= new_vars);
    all
}

/// Each variable of the list as the kernel takes it: name, an equals sign,
/// value.
pub fn render(vars: &Vec<(String, String)>) -> (lines: Vec<String>)
    ensures
        lines.deep_view() == assignments(vars.deep_view()),
{
    let mut lines: Vec<String> = Vec::new();
    let mut i: usize = 0;
    while i < vars.len()
        invariant
            i <= vars.len(),
            lines.len() == i,
            forall|k: int| 0 <= k < i ==> (#[trigger] lines[k])@ == assignment(vars.deep_view()[k]),
        decreases vars.len() - i,
    {
        let mut line = vars[i].0.clone();
        line.append("=");
        line.append(vars[i].1.as_str());
        proof {
            reveal_strlit("=");
            assert("="@ =~= seq!['=']);
        }
        lines.push(line);
        i += 1;
    }
    assert(lines.deep_view() =~= assignments(vars.deep_view()));
    lines
}

} // verus!
