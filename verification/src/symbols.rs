use vstd::prelude::*;

verus! {

/// A class that a scan has met, with the names of its methods in the order
/// in which they were first seen.
#[derive(Debug)]
pub struct ClassEntry {
    pub name: String,
    pub methods: Vec<String>,
}

/// What a class entry stands for.
pub ghost struct Class {
    pub name: Seq<char>,
    pub methods: Seq<Seq<char>>,
}

/// The names that a list of buffers holds.
pub open spec fn names_of(list: Seq<String>) -> Seq<Seq<char>> {
    list.map_values(|m: String| m@)
}

impl View for ClassEntry {
    type V = Class;

    open spec fn view(&self) -> Class {
        Class { name: self.name@, methods: names_of(self.methods@) }
    }
}

/// What a list of class entries stands for.
pub open spec fn table_of(list: Seq<ClassEntry>) -> Seq<Class> {
    list.map_values(|c: ClassEntry| c@)
}

/// The index of the first entry from the `from`-th on that bears the name, or
/// the length of the table where none does.
pub open spec fn lookup_from(table: Seq<Class>, name: Seq<char>, from: int) -> int
    decreases table.len() - from,
{
    if from < 0 || from >= table.len() {
        table.len() as int
    } else if table[from].name == name {
        from
    } else {
        lookup_from(table, name, from + 1)
    }
}

/// The index of the first entry that bears the name, or the length of the
/// table where none does.
pub open spec fn lookup(table: Seq<Class>, name: Seq<char>) -> int {
    lookup_from(table, name, 0)
}

/// The table with one more entry, which bears the name and has no methods. An
/// entry of the same name that is there already stays, and stays first.
pub open spec fn declared(table: Seq<Class>, name: Seq<char>) -> Seq<Class> {
    table.push(Class { name, methods: Seq::empty() })
}

/// The table after a method was seen: the first entry of that class gets the
/// method at the end of its list unless the list has it; where no entry bears
/// the class's name, one is added that has this method alone.
pub open spec fn registered(table: Seq<Class>, class: Seq<char>, method: Seq<char>) -> Seq<Class> {
    let k = lookup(table, class);
    if k >= table.len() {
        table.push(Class { name: class, methods: seq![method] })
    } else if table[k].methods.contains(method) {
        table
    } else {
        table.update(k, Class { name: table[k].name, methods: table[k].methods.push(method) })
    }
}

/// Whether no entry lists a method twice.
pub open spec fn methods_unique(table: Seq<Class>) -> bool {
    forall|k: int| 0 <= k < table.len() ==> (#[trigger] table[k]).methods.no_duplicates()
}

/// Whether the table `after` holds all that `before` held, in the same
/// places: no entry has gone or changed its name, and each entry's methods
/// begin with those it had.
pub open spec fn extends(after: Seq<Class>, before: Seq<Class>) -> bool {
    &&& before.len() <= after.len()
    &&& forall|k: int|
        0 <= k < before.len() ==> (#[trigger] after[k]).name == before[k].name
            && before[k].methods.is_prefix_of(after[k].methods)
}

/// A lookup lands on the first entry of that name, or past the table where
/// no entry has it.
pub proof fn lemma_lookup(table: Seq<Class>, name: Seq<char>, from: int)
    requires
        0 <= from <= table.len(),
    ensures
        from <= lookup_from(table, name, from) <= table.len(),
        lookup_from(table, name, from) < table.len() ==> table[lookup_from(
            table,
            name,
            from,
        )].name == name,
        forall|k: int|
            from <= k < lookup_from(table, name, from) ==> (#[trigger] table[k]).name != name,
    decreases table.len() - from,
{
    if from < table.len() && table[from].name != name {
        lemma_lookup(table, name, from + 1);
    }
}

/// Declaring a class and registering a method keep every method list free of
/// repetitions.
pub proof fn lemma_methods_stay_unique(table: Seq<Class>, class: Seq<char>, method: Seq<char>)
    requires
        methods_unique(table),
    ensures
        methods_unique(declared(table, class)),
        methods_unique(registered(table, class, method)),
{
    lemma_lookup(table, class, 0);
    let d = declared(table, class);
    assert forall|k: int| 0 <= k < d.len() implies (#[trigger] d[k]).methods.no_duplicates() by {
        if k < table.len() {
            assert(d[k] == table[k]);
        }
    }
    let r = registered(table, class, method);
    let at = lookup(table, class);
    assert forall|k: int| 0 <= k < r.len() implies (#[trigger] r[k]).methods.no_duplicates() by {
        if k < table.len() && (at >= table.len() || k != at || table[at].methods.contains(method)) {
            assert(r[k] == table[k]);
        } else if k < table.len() {
            let old_list = table[k].methods;
            let new_list = old_list.push(method);
            assert(r[k].methods == new_list);
            assert forall|i: int, j: int|
                0 <= i < new_list.len() && 0 <= j < new_list.len() && i != j implies new_list[i]
                != new_list[j] by {
                if i < old_list.len() && j < old_list.len() {
                } else if i < old_list.len() {
                    assert(old_list.contains(old_list[i]));
                } else {
                    assert(old_list.contains(old_list[j]));
                }
            }
        } else {
            assert(r[k].methods == seq![method]);
        }
    }
}

/// A lookup that starts at or before the first entry of a name finds it.
proof fn lemma_lookup_is(table: Seq<Class>, name: Seq<char>, from: int, at: int)
    requires
        0 <= from <= at < table.len(),
        table[at].name == name,
        forall|k: int| from <= k < at ==> (#[trigger] table[k]).name != name,
    ensures
        lookup_from(table, name, from) == at,
    decreases at - from,
{
    if from < at {
        lemma_lookup_is(table, name, from + 1, at);
    }
}

/// Registering a method a second time changes nothing: the class lists the
/// method once, where it was first put.
pub proof fn law_registering_twice_is_once(table: Seq<Class>, class: Seq<char>, method: Seq<char>)
    ensures
        registered(registered(table, class, method), class, method) == registered(
            table,
            class,
            method,
        ),
{
    lemma_lookup(table, class, 0);
    let once = registered(table, class, method);
    let at = lookup(table, class);
    if at >= table.len() {
        assert(once[at].name == class);
        assert forall|k: int| 0 <= k < at implies (#[trigger] once[k]).name != class by {
            assert(once[k] == table[k]);
        }
        lemma_lookup_is(once, class, 0, at);
        assert(once[at].methods[0] == method);
    } else if table[at].methods.contains(method) {
    } else {
        assert forall|k: int| 0 <= k < at implies (#[trigger] once[k]).name != class by {
            assert(once[k] == table[k]);
        }
        lemma_lookup_is(once, class, 0, at);
        let list = table[at].methods;
        assert(once[at].methods == list.push(method));
        assert(list.push(method)[list.len() as int] == method);
    }
}

/// Declaring a class and registering a method take nothing out of the table.
pub proof fn lemma_table_grows(table: Seq<Class>, class: Seq<char>, method: Seq<char>)
    ensures
        extends(table, table),
        extends(declared(table, class), table),
        extends(registered(table, class, method), table),
{
    lemma_lookup(table, class, 0);
    let d = declared(table, class);
    let r = registered(table, class, method);
    assert forall|k: int| 0 <= k < table.len() implies (#[trigger] table[k]).methods.is_prefix_of(
        table[k].methods,
    ) by {
        assert(table[k].methods.subrange(0, table[k].methods.len() as int) == table[k].methods);
    }
    assert forall|k: int| 0 <= k < table.len() implies (#[trigger] d[k]).name == table[k].name
        && table[k].methods.is_prefix_of(d[k].methods) by {
        assert(d[k] == table[k]);
    }
    assert forall|k: int| 0 <= k < table.len() implies (#[trigger] r[k]).name == table[k].name
        && table[k].methods.is_prefix_of(r[k].methods) by {
        let list = table[k].methods;
        assert(r[k].methods == list || r[k].methods == list.push(method));
        assert(list.push(method).subrange(0, list.len() as int) == list);
    }
}

/// What holds all that a second table held, which held all of a third, holds
/// all of the third.
pub proof fn lemma_extends_twice(last: Seq<Class>, middle: Seq<Class>, first: Seq<Class>)
    requires
        extends(last, middle),
        extends(middle, first),
    ensures
        extends(last, first),
{
    assert forall|k: int| 0 <= k < first.len() implies (#[trigger] last[k]).name == first[k].name
        && first[k].methods.is_prefix_of(last[k].methods) by {
        assert(middle[k].name == first[k].name);
        let a = first[k].methods;
        let b = middle[k].methods;
        let c = last[k].methods;
        assert(a == b.subrange(0, a.len() as int));
        assert(b == c.subrange(0, b.len() as int));
        assert(a =~= c.subrange(0, a.len() as int));
    }
}

/// The index of the first entry that bears the name, or the length of the
/// list where none does.
pub fn find_class(classes: &Vec<ClassEntry>, name: &String) -> (at: usize)
    ensures
        at == lookup(table_of(classes@), name@),
        at <= classes.len(),
{
    let mut i: usize = 0;
    while i < classes.len()
        invariant
            i <= classes.len(),
            lookup(table_of(classes@), name@) == lookup_from(table_of(classes@), name@, i as int),
        decreases classes.len() - i,
    {
        if classes[i].name == *name {
            return i;
        }
        i += 1;
    }
    i
}

/// Whether the list holds the name.
pub fn has_name(list: &Vec<String>, name: &String) -> (r: bool)
    ensures
        r == names_of(list@).contains(name@),
{
    let mut i: usize = 0;
    while i < list.len()
        invariant
            i <= list.len(),
            forall|k: int| 0 <= k < i ==> names_of(list@)[k] != name@,
        decreases list.len() - i,
    {
        if list[i] == *name {
            assert(names_of(list@)[i as int] == name@);
            return true;
        }
        i += 1;
    }
    false
}

/// Adds an entry that bears the name and has no methods.
pub fn declare(classes: &mut Vec<ClassEntry>, name: String)
    ensures
        table_of(final(classes)@) == declared(table_of(old(classes)@), name@),
{
    let entry = ClassEntry { name, methods: Vec::new() };
    assert(entry@.methods == Seq::<Seq<char>>::empty());
    classes.push(entry);
    assert(table_of(classes@) == table_of(old(classes)@).push(entry@));
}

/// Notes that the class has the method.
pub fn register(classes: &mut Vec<ClassEntry>, class: &String, method: String)
    ensures
        table_of(final(classes)@) == registered(table_of(old(classes)@), class@, method@),
{
    let ghost before = table_of(classes@);
    let at = find_class(classes, class);
    if at >= classes.len() {
        let mut methods: Vec<String> = Vec::new();
        methods.push(method);
        let entry = ClassEntry { name: class.clone(), methods };
        assert(entry@.methods == seq![method@]);
        classes.push(entry);
        assert(table_of(classes@) == before.push(entry@));
    } else if !has_name(&classes[at].methods, &method) {
        let ghost list = names_of(classes[at as int].methods@);
        let mut entry = classes.remove(at);
        entry.methods.push(method);
        assert(entry@.methods == list.push(method@));
        classes.insert(at, entry);
        assert(table_of(classes@) == before.update(at as int, entry@));
    }
}

} // verus!
