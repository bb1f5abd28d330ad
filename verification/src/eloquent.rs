//! Eloquent models: their class hierarchy and the names of their attributes.
use vstd::prelude::*;
use vstd::string::*;

use crate::text;

verus! {

/// A PHP type as far as it is looked into: a name, a name with type arguments, or anything else.
#[derive(Debug)]
pub enum PhpType {
    Named(String),
    Generic(String, Vec<PhpType>),
    Other(String),
}

/// Who can call a method.
#[derive(Debug, Clone, Copy, PartialEq, Eq, Structural)]
pub enum Visibility {
    Public,
    Protected,
    Private,
}

/// A parameter of a method.
#[derive(Debug, Clone, Copy, PartialEq, Eq, Structural)]
pub struct ParameterInfo {
    pub is_required: bool,
}

/// What a method returns: the type, the type as it is written, and whether it is that of a
/// relationship.
#[derive(Debug)]
pub struct ReturnType {
    pub ty: PhpType,
    pub text: String,
    pub is_relationship: bool,
}

/// A method of a class.
#[derive(Debug)]
pub struct MethodInfo {
    pub name: String,
    pub visibility: Visibility,
    pub parameters: Vec<ParameterInfo>,
    pub return_type: Option<ReturnType>,
}

/// A class: its name, its name with the namespace, its parent, and its methods.
#[derive(Debug)]
pub struct ClassInfo {
    pub name: String,
    pub fqn: String,
    pub parent_class: Option<String>,
    pub methods: Vec<MethodInfo>,
}

/// A class under the name by which it is loaded.
#[derive(Debug)]
pub struct ClassEntry {
    pub name: String,
    pub class: ClassInfo,
}

/// The name of the class that every Eloquent model descends from.
pub open spec fn model_fqn() -> Seq<char> {
    "Illuminate\\Database\\Eloquent\\Model"@
}

/// The name of the class that every Eloquent builder descends from.
pub open spec fn builder_fqn() -> Seq<char> {
    "Illuminate\\Database\\Eloquent\\Builder"@
}

/// The first place, from `i` on, at which the table has the name; the size of the table if it does
/// not have it.
pub open spec fn entry_named(table: Seq<ClassEntry>, name: Seq<char>, i: int) -> int
    decreases table.len() - i,
{
    if i >= table.len() {
        table.len() as int
    } else if table[i].name@ == name {
        i
    } else {
        entry_named(table, name, i + 1)
    }
}

/// The class that is loaded by a name.
pub open spec fn class_named(table: Seq<ClassEntry>, name: Seq<char>) -> Option<ClassInfo> {
    let i = entry_named(table, name, 0);
    if i < table.len() {
        Some(table[i].class)
    } else {
        None
    }
}

/// The name of a class's parent.
pub open spec fn parent_name(c: ClassInfo) -> Option<Seq<char>> {
    match c.parent_class {
        Some(name) => Some(name@),
        None => None,
    }
}

/// The name of a class's parent, of the parent of that, and so on: the one that `n` others come
/// before.
pub open spec fn ancestor(c: ClassInfo, table: Seq<ClassEntry>, n: nat) -> Option<Seq<char>>
    decreases n,
{
    if n == 0 {
        parent_name(c)
    } else {
        match ancestor(c, table, (n - 1) as nat) {
            Some(name) => match class_named(table, name) {
                Some(parent) => parent_name(parent),
                None => None,
            },
            None => None,
        }
    }
}

/// Whether `name` is an ancestor of a class.
pub open spec fn descends_from(c: ClassInfo, table: Seq<ClassEntry>, name: Seq<char>) -> bool {
    exists|n: nat| ancestor(c, table, n) == Some(name)
}

/// Whether a class is the one with the given name or descends from it.
pub open spec fn is_or_descends_from(
    c: ClassInfo,
    table: Seq<ClassEntry>,
    name: Seq<char>,
) -> bool {
    c.fqn@ == name || descends_from(c, table, name)
}

/// The place of a name in the table.
fn find_entry(table: &Vec<ClassEntry>, name: &str) -> (r: usize)
    ensures
        r == entry_named(table@, name@, 0),
        r <= table@.len(),
{
    let mut i: usize = 0;
    while i < table.len()
        invariant
            i <= table@.len(),
            entry_named(table@, name@, i as int) == entry_named(table@, name@, 0),
        decreases table@.len() - i,
    {
        if text::str_eq(table[i].name.as_str(), name) {
            return i;
        }
        i += 1;
    }
    i
}

/// The class that is loaded by a name.
pub fn find_class<'a>(table: &'a Vec<ClassEntry>, name: &str) -> (r: Option<&'a ClassInfo>)
    ensures
        match r {
            Some(c) => class_named(table@, name@) == Some(*c),
            None => class_named(table@, name@) is None,
        },
{
    let i = find_entry(table, name);
    if i < table.len() {
        Some(&table[i].class)
    } else {
        None
    }
}

/// Once there is no ancestor, there is none further up.
proof fn lemma_no_ancestor(c: ClassInfo, table: Seq<ClassEntry>, k: nat, n: nat)
    requires
        ancestor(c, table, k) is None,
        k <= n,
    ensures
        ancestor(c, table, n) is None,
    decreases n,
{
    if k < n {
        lemma_no_ancestor(c, table, k, (n - 1) as nat);
    }
}

/// Once the ancestors repeat, they go on repeating.
proof fn lemma_ancestors_repeat(c: ClassInfo, table: Seq<ClassEntry>, m: nat, k: nat, n: nat)
    requires
        m < k <= n,
        ancestor(c, table, m + 1) == ancestor(c, table, k + 1),
    ensures
        ancestor(c, table, n + 1) == ancestor(c, table, (n + 1 - (k - m)) as nat),
    decreases n,
{
    if k < n {
        lemma_ancestors_repeat(c, table, m, k, (n - 1) as nat);
    }
}

/// What does not come up before the ancestors repeat never does.
proof fn lemma_absent(c: ClassInfo, table: Seq<ClassEntry>, m: nat, k: nat, name: Seq<char>, n: nat)
    requires
        m < k,
        ancestor(c, table, m + 1) == ancestor(c, table, k + 1),
        forall|j: nat| j <= k ==> ancestor(c, table, j) != Some(name),
    ensures
        ancestor(c, table, n) != Some(name),
    decreases n,
{
    if n > k {
        lemma_ancestors_repeat(c, table, m, k, (n - 1) as nat);
        lemma_absent(c, table, m, k, name, (n - (k - m)) as nat);
    }
}

/// How many marks are not set.
spec fn unset(marks: Seq<bool>) -> nat
    decreases marks.len(),
{
    if marks.len() == 0 {
        0
    } else {
        unset(marks.drop_last()) + (if marks.last() {
            0nat
        } else {
            1nat
        })
    }
}

/// Setting a mark leaves one less.
proof fn lemma_unset(marks: Seq<bool>, i: int)
    requires
        0 <= i < marks.len(),
        !marks[i],
    ensures
        unset(marks.update(i, true)) + 1 == unset(marks),
    decreases marks.len(),
{
    let after = marks.update(i, true);
    if i == marks.len() - 1 {
        assert(after.drop_last() =~= marks.drop_last());
    } else {
        assert(after.drop_last() =~= marks.drop_last().update(i, true));
        lemma_unset(marks.drop_last(), i);
    }
}

/// Marks of which none is set.
fn clear_marks(count: usize) -> (r: Vec<bool>)
    ensures
        r@.len() == count,
        forall|i: int| 0 <= i < count ==> !r@[i],
{
    let mut r: Vec<bool> = Vec::new();
    let mut i: usize = 0;
    while i < count
        invariant
            i <= count,
            r@.len() == i,
            forall|j: int| 0 <= j < i ==> !r@[j],
        decreases count - i,
    {
        r.push(false);
        i += 1;
    }
    r
}

/// Whether `name` is an ancestor of a class. Classes that are their own ancestors do no harm.
pub fn has_ancestor(class: &ClassInfo, table: &Vec<ClassEntry>, name: &str) -> (r: bool)
    ensures
        r == descends_from(*class, table@, name@),
{
    let ghost c = *class;
    let ghost t = table@;
    let ghost mut k: nat = 0;
    let mut seen = clear_marks(table.len());
    let mut current: &Option<String> = &class.parent_class;
    loop
        invariant
            c == *class,
            t == table@,
            seen@.len() == t.len(),
            ancestor(c, t, k) == (match *current {
                Some(parent) => Some(parent@),
                None => None,
            }),
            forall|j: nat| j < k ==> ancestor(c, t, j) != Some(name@),
            forall|i: int|
                0 <= i < seen@.len() && #[trigger] seen@[i] ==> exists|j: nat|
                    j < k && (#[trigger] ancestor(c, t, j)) is Some && entry_named(
                        t,
                        ancestor(c, t, j)->0,
                        0,
                    ) == i,
        decreases unset(seen@),
    {
        match current {
            None => {
                assert forall|n: nat| ancestor(c, t, n) != Some(name@) by {
                    if n >= k {
                        lemma_no_ancestor(c, t, k, n);
                    }
                }
                return false;
            },
            Some(parent) => {
                if text::str_eq(parent.as_str(), name) {
                    assert(ancestor(c, t, k) == Some(name@));
                    return true;
                }
                let i = find_entry(table, parent.as_str());
                if i == table.len() {
                    assert forall|n: nat| ancestor(c, t, n) != Some(name@) by {
                        assert(ancestor(c, t, k + 1) is None);
                        if n > k {
                            lemma_no_ancestor(c, t, k + 1, n);
                        }
                    }
                    return false;
                }
                if seen[i] {
                    proof {
                        let m = choose|j: nat|
                            j < k && (#[trigger] ancestor(c, t, j)) is Some && entry_named(
                                t,
                                ancestor(c, t, j)->0,
                                0,
                            ) == i;
                        assert(ancestor(c, t, m + 1) == ancestor(c, t, k + 1));
                        assert forall|n: nat| ancestor(c, t, n) != Some(name@) by {
                            lemma_absent(c, t, m, k, name@, n);
                        }
                    }
                    return false;
                }
                proof {
                    lemma_unset(seen@, i as int);
                }
                seen.set(i, true);
                current = &table[i].class.parent_class;
                proof {
                    assert(ancestor(c, t, k + 1) == parent_name(t[i as int].class));
                    assert(ancestor(c, t, k) is Some && entry_named(
                        t,
                        ancestor(c, t, k)->0,
                        0,
                    ) == i);
                    k = k + 1;
                }
            },
        }
    }
}

/// Whether a name is that of the class that every Eloquent model descends from.
pub fn is_eloquent_model(class_name: &str) -> (r: bool)
    ensures
        r == (class_name@ == model_fqn()),
        r == (class_name@ == "Illuminate\\Database\\Eloquent\\Model"@),
{
    text::str_eq(class_name, "Illuminate\\Database\\Eloquent\\Model")
}

/// Whether a class is an Eloquent model: the base class or one that descends from it.
pub fn extends_eloquent_model(class: &ClassInfo, table: &Vec<ClassEntry>) -> (r: bool)
    ensures
        r == is_or_descends_from(*class, table@, model_fqn()),
        r == (class.fqn@ == "Illuminate\\Database\\Eloquent\\Model"@ || descends_from(
            *class,
            table@,
            "Illuminate\\Database\\Eloquent\\Model"@,
        )),
{
    is_eloquent_model(class.fqn.as_str()) || has_ancestor(
        class,
        table,
        "Illuminate\\Database\\Eloquent\\Model",
    )
}

/// Whether a class is an Eloquent builder: the base class or one that descends from it.
pub fn extends_eloquent_builder(class: &ClassInfo, table: &Vec<ClassEntry>) -> (r: bool)
    ensures
        r == is_or_descends_from(*class, table@, builder_fqn()),
        r == (class.fqn@ == "Illuminate\\Database\\Eloquent\\Builder"@ || descends_from(
            *class,
            table@,
            "Illuminate\\Database\\Eloquent\\Builder"@,
        )),
{
    text::str_eq(class.fqn.as_str(), "Illuminate\\Database\\Eloquent\\Builder") || has_ancestor(
        class,
        table,
        "Illuminate\\Database\\Eloquent\\Builder",
    )
}

/// The ancestors of a class behind its parent are those of its parent.
proof fn lemma_ancestor_of_parent(c: ClassInfo, p: ClassInfo, table: Seq<ClassEntry>, n: nat)
    requires
        parent_name(c) is Some,
        class_named(table, parent_name(c)->0) == Some(p),
    ensures
        ancestor(c, table, n + 1) == ancestor(p, table, n),
    decreases n,
{
    if n > 0 {
        lemma_ancestor_of_parent(c, p, table, (n - 1) as nat);
    } else {
        assert(ancestor(c, table, 0) == parent_name(c));
        assert(ancestor(c, table, 1) == parent_name(p));
    }
}

/// A class descends from its parent, and from whatever its parent descends from, and from nothing
/// else.
pub proof fn law_descent_goes_through_parent(
    c: ClassInfo,
    table: Seq<ClassEntry>,
    name: Seq<char>,
)
    ensures
        descends_from(c, table, name) <==> match parent_name(c) {
            Some(parent) => parent == name || (class_named(table, parent) matches Some(p)
                && descends_from(p, table, name)),
            None => false,
        },
{
    match parent_name(c) {
        Some(parent) => {
            assert(ancestor(c, table, 0) == Some(parent));
            match class_named(table, parent) {
                Some(p) => {
                    if descends_from(p, table, name) {
                        let n = choose|n: nat| ancestor(p, table, n) == Some(name);
                        lemma_ancestor_of_parent(c, p, table, n);
                        assert(ancestor(c, table, n + 1) == Some(name));
                    }
                    if descends_from(c, table, name) && parent != name {
                        let n = choose|n: nat| ancestor(c, table, n) == Some(name);
                        assert(n > 0);
                        lemma_ancestor_of_parent(c, p, table, (n - 1) as nat);
                        assert(ancestor(p, table, (n - 1) as nat) == Some(name));
                    }
                },
                None => {
                    assert(ancestor(c, table, 1) is None);
                    if descends_from(c, table, name) && parent != name {
                        let n = choose|n: nat| ancestor(c, table, n) == Some(name);
                        lemma_no_ancestor(c, table, 1, n);
                    }
                },
            }
        },
        None => {
            assert(ancestor(c, table, 0) is None);
            if descends_from(c, table, name) {
                let n = choose|n: nat| ancestor(c, table, n) == Some(name);
                lemma_no_ancestor(c, table, 0, n);
            }
        },
    }
}

/// Whether the class that is loaded by the name `child` has `parent` for its parent.
pub open spec fn is_parent_name(table: Seq<ClassEntry>, child: Seq<char>, parent: Seq<char>) -> bool {
    exists|i: int|
        0 <= i < table.len() && #[trigger] table[i].name@ == child && (forall|j: int|
            0 <= j < i ==> #[trigger] table[j].name@ != child) && table[i].class.parent_class is Some
            && (table[i].class.parent_class->0)@ == parent
}

/// Whether the names lead up from a class: the first is its parent, and each of the others is the parent
/// of the class before it.
pub open spec fn leads_up(c: ClassInfo, table: Seq<ClassEntry>, names: Seq<Seq<char>>) -> bool {
    &&& names.len() > 0
    &&& c.parent_class is Some && (c.parent_class->0)@ == names[0]
    &&& forall|k: int|
        0 <= k < names.len() - 1 ==> is_parent_name(table, #[trigger] names[k], names[k + 1])
}

/// The entry that is found is the first with the name.
proof fn lemma_entry_named(table: Seq<ClassEntry>, name: Seq<char>, i: int)
    requires
        0 <= i <= table.len(),
    ensures
        ({
            let k = entry_named(table, name, i);
            &&& i <= k <= table.len()
            &&& k < table.len() ==> table[k].name@ == name
            &&& forall|j: int| i <= j < k ==> #[trigger] table[j].name@ != name
        }),
    decreases table.len() - i,
{
    if i < table.len() && table[i].name@ != name {
        lemma_entry_named(table, name, i + 1);
    }
}

/// The parent of a loaded class is that of the first entry with its name.
proof fn lemma_parent_name(table: Seq<ClassEntry>, child: Seq<char>, parent: Seq<char>)
    ensures
        is_parent_name(table, child, parent) <==> class_named(table, child) is Some && parent_name(
            class_named(table, child)->0,
        ) == Some(parent),
{
    let k = entry_named(table, child, 0);
    lemma_entry_named(table, child, 0);
    if is_parent_name(table, child, parent) {
        let i = choose|i: int|
            0 <= i < table.len() && #[trigger] table[i].name@ == child && (forall|j: int|
                0 <= j < i ==> #[trigger] table[j].name@ != child) && table[i].class.parent_class
                is Some && (table[i].class.parent_class->0)@ == parent;
        assert(i == k) by {
            if i < k {
                assert(table[i].name@ != child);
            }
            if k < i {
                assert(table[k].name@ != child);
            }
        }
    }
    if class_named(table, child) is Some && parent_name(class_named(table, child)->0) == Some(parent) {
        assert(table[k].name@ == child);
    }
}

/// A class descends exactly from the names that are reached from it by going from parent to parent,
/// however far.
pub proof fn law_descent_is_a_chain_of_parents(
    c: ClassInfo,
    table: Seq<ClassEntry>,
    name: Seq<char>,
)
    ensures
        descends_from(c, table, name) <==> exists|names: Seq<Seq<char>>| #[trigger]
            leads_up(c, table, names) && names.last() == name,
{
    if descends_from(c, table, name) {
        let n = choose|n: nat| ancestor(c, table, n) == Some(name);
        let names = Seq::new(n + 1, |k: int| ancestor(c, table, k as nat)->0);
        assert forall|k: nat| k <= n implies #[trigger] ancestor(c, table, k) is Some by {
            if ancestor(c, table, k) is None {
                lemma_no_ancestor(c, table, k, n);
            }
        }
        assert(ancestor(c, table, 0) == parent_name(c));
        assert forall|k: int| 0 <= k < names.len() - 1 implies is_parent_name(
            table,
            #[trigger] names[k],
            names[k + 1],
        ) by {
            assert(ancestor(c, table, k as nat) is Some);
            assert(ancestor(c, table, (k + 1) as nat) is Some);
            lemma_parent_name(table, names[k], names[k + 1]);
        }
        assert(leads_up(c, table, names));
    }
    if exists|names: Seq<Seq<char>>| #[trigger]
        leads_up(c, table, names) && names.last() == name {
        let names = choose|names: Seq<Seq<char>>| #[trigger]
            leads_up(c, table, names) && names.last() == name;
        lemma_chain_of_parents(c, table, names, (names.len() - 1) as nat);
    }
}

/// The names that lead up from a class are its ancestors.
proof fn lemma_chain_of_parents(
    c: ClassInfo,
    table: Seq<ClassEntry>,
    names: Seq<Seq<char>>,
    k: nat,
)
    requires
        leads_up(c, table, names),
        k < names.len(),
    ensures
        ancestor(c, table, k) == Some(names[k as int]),
    decreases k,
{
    if k > 0 {
        lemma_chain_of_parents(c, table, names, (k - 1) as nat);
        assert(is_parent_name(table, names[k - 1], names[k - 1 + 1]));
        lemma_parent_name(table, names[k - 1], names[k as int]);
    }
}

} // verus!
