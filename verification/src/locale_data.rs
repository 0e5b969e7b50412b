use crate::vec_util::reversed;
use vstd::prelude::*;

verus! {

// ---------------------------------------------------------------------------
// Named entries: the rules and sections of a locale, in the order in which
// they were added.
// ---------------------------------------------------------------------------

/// Whether an entry of `s` is named `k`.
pub open spec fn has_name<V>(s: Seq<(String, V)>, k: Seq<char>) -> bool {
    exists|i: int| 0 <= i < s.len() && (#[trigger] s[i]).0@ == k
}

/// The value of the first entry of `s` named `k`.
pub open spec fn lookup<V>(s: Seq<(String, V)>, k: Seq<char>) -> Option<V>
    decreases s.len(),
{
    if s.len() == 0 {
        None
    } else if s[0].0@ == k {
        Some(s[0].1)
    } else {
        lookup(s.drop_first(), k)
    }
}

/// No two entries of `s` have the same name.
pub open spec fn distinct_names<V>(s: Seq<(String, V)>) -> bool {
    forall|i: int, j: int| 0 <= i < j < s.len() ==> (#[trigger] s[i]).0@ != (#[trigger] s[j]).0@
}

pub open spec fn names_view(s: Seq<String>) -> Seq<Seq<char>> {
    s.map_values(|n: String| n@)
}

/// Adding `incoming` after `acc`, first entry wins: an entry whose name is
/// already there is skipped and its name reported. The result is the entries
/// and the names skipped, in order.
pub open spec fn merge_first<V>(acc: Seq<(String, V)>, incoming: Seq<(String, V)>) -> (
    Seq<(String, V)>,
    Seq<Seq<char>>,
)
    decreases incoming.len(),
{
    if incoming.len() == 0 {
        (acc, Seq::empty())
    } else {
        let (r, d) = merge_first(acc, incoming.drop_last());
        let e = incoming.last();
        if has_name(r, e.0@) {
            (r, d.push(e.0@))
        } else {
            (r.push(e), d)
        }
    }
}

/// Whether an entry of `s` is named like `name`.
pub fn contains_name<V>(s: &Vec<(String, V)>, name: &String) -> (res: bool)
    ensures
        res == has_name(s@, name@),
{
    let mut i: usize = 0;
    while i < s.len()
        invariant
            i <= s@.len(),
            forall|j: int| 0 <= j < i ==> (#[trigger] s@[j]).0@ != name@,
        decreases s.len() - i,
    {
        if s[i].0 == *name {
            assert(s@[i as int].0@ == name@);
            return true;
        }
        i = i + 1;
    }
    false
}

/// Adds the entries of `incoming` to `acc` where no entry of that name is there
/// yet, and returns the names of the entries that it skipped.
pub fn merge_first_wins<V>(acc: &mut Vec<(String, V)>, incoming: Vec<(String, V)>) -> (duplicates:
    Vec<String>)
    ensures
        (final(acc)@, names_view(duplicates@)) == merge_first(old(acc)@, incoming@),
{
    let ghost start = acc@;
    let ghost inc = incoming@;
    let n = incoming.len();
    let mut rest = reversed(incoming);
    let mut duplicates: Vec<String> = Vec::new();
    let mut k: usize = 0;
    assert(inc.take(0) =~= Seq::<(String, V)>::empty());
    assert(names_view(duplicates@) =~= Seq::<Seq<char>>::empty());
    assert(inc.subrange(0, n as int).reverse() =~= inc.reverse());
    while rest.len() > 0
        invariant
            n == inc.len(),
            k + rest@.len() == n,
            rest@ == inc.subrange(k as int, n as int).reverse(),
            (acc@, names_view(duplicates@)) == merge_first(start, inc.take(k as int)),
        decreases rest.len(),
    {
        let e = rest.pop().unwrap();
        assert(e == inc[k as int]);
        assert(rest@ =~= inc.subrange(k + 1, n as int).reverse());
        assert(inc.take(k + 1).drop_last() =~= inc.take(k as int));
        assert(inc.take(k + 1).last() == e);
        let ghost old_dups = duplicates@;
        if contains_name(acc, &e.0) {
            duplicates.push(e.0);
            assert(names_view(duplicates@) =~= names_view(old_dups).push(e.0@));
        } else {
            acc.push(e);
        }
        k = k + 1;
    }
    assert(inc.take(n as int) =~= inc);
    duplicates
}

proof fn lemma_lookup_push<V>(s: Seq<(String, V)>, e: (String, V), k: Seq<char>)
    ensures
        lookup(s.push(e), k) == if has_name(s, k) {
            lookup(s, k)
        } else if e.0@ == k {
            Some(e.1)
        } else {
            None
        },
        has_name(s.push(e), k) == (has_name(s, k) || e.0@ == k),
    decreases s.len(),
{
    if s.len() > 0 {
        assert(s.push(e).drop_first() =~= s.drop_first().push(e));
        assert(s.push(e)[0] == s[0]);
        lemma_lookup_push(s.drop_first(), e, k);
        if s[0].0@ != k {
            assert(lookup(s.push(e), k) == lookup(s.drop_first().push(e), k));
            assert(lookup(s, k) == lookup(s.drop_first(), k));
            if has_name(s, k) {
                let i = choose|i: int| 0 <= i < s.len() && (#[trigger] s[i]).0@ == k;
                assert(s.drop_first()[i - 1] == s[i]);
            }
            if has_name(s.drop_first(), k) {
                let i = choose|i: int| 0 <= i < s.drop_first().len() && (#[trigger] s.drop_first()[i]).0@ == k;
                assert(s[i + 1] == s.drop_first()[i]);
            }
        } else {
            assert(s[0].0@ == k);
            assert(has_name(s, k));
            assert(lookup(s, k) == Some(s[0].1));
            assert(lookup(s.push(e), k) == Some(s[0].1));
        }
        if has_name(s.push(e), k) {
            let i = choose|i: int| 0 <= i < s.push(e).len() && (#[trigger] s.push(e)[i]).0@ == k;
            if i < s.len() {
                assert(s[i] == s.push(e)[i]);
            }
        }
        if has_name(s, k) {
            let i = choose|i: int| 0 <= i < s.len() && (#[trigger] s[i]).0@ == k;
            assert(s.push(e)[i] == s[i]);
        }
    } else {
        assert(s.push(e)[0] == e);
        assert(s.push(e).drop_first() =~= Seq::<(String, V)>::empty());
        assert(!has_name(s, k));
        assert(lookup(s.push(e), k) == if e.0@ == k { Some(e.1) } else { lookup(Seq::<(String, V)>::empty(), k) });
        if has_name(s.push(e), k) {
            let i = choose|i: int| 0 <= i < s.push(e).len() && (#[trigger] s.push(e)[i]).0@ == k;
            assert(i == 0);
        }
    }
}

/// A first-wins merge keeps every value that was there, adds the first value of
/// each new name, and keeps names distinct.
pub proof fn lemma_merge_first_lookup<V>(acc: Seq<(String, V)>, incoming: Seq<(String, V)>, k: Seq<char>)
    ensures
        lookup(merge_first(acc, incoming).0, k) == if has_name(acc, k) {
            lookup(acc, k)
        } else {
            lookup(incoming, k)
        },
        has_name(merge_first(acc, incoming).0, k) == (has_name(acc, k) || has_name(incoming, k)),
        distinct_names(acc) ==> distinct_names(merge_first(acc, incoming).0),
    decreases incoming.len(),
{
    if incoming.len() > 0 {
        let pre = incoming.drop_last();
        let e = incoming.last();
        lemma_merge_first_lookup(acc, pre, k);
        let r = merge_first(acc, pre).0;
        lemma_lookup_push(r, e, k);
        lemma_lookup_push(pre, e, k);
        assert(pre.push(e) =~= incoming);
        if distinct_names(acc) && !has_name(r, e.0@) {
            assert forall|i: int, j: int| 0 <= i < j < r.push(e).len() implies (#[trigger] r.push(e)[i]).0@
                != (#[trigger] r.push(e)[j]).0@ by {
                if j == r.len() {
                    assert(r.push(e)[i] == r[i]);
                } else {
                    assert(r.push(e)[i] == r[i]);
                    assert(r.push(e)[j] == r[j]);
                }
            }
        }
        if !has_name(pre, k) {
            lemma_lookup_none(pre, k);
        }
        if !has_name(r, k) {
            lemma_lookup_none(r, k);
        }
    } else if !has_name(acc, k) {
        lemma_lookup_none(acc, k);
    }
}

/// Sets the value of the entry named like `name`, or adds one at the end, and
/// tells whether there was one.
pub fn insert_replacing<V>(entries: &mut Vec<(String, V)>, name: String, value: V) -> (had_previous:
    bool)
    ensures
        had_previous == has_name(old(entries)@, name@),
        had_previous ==> exists|i: int|
            0 <= i < old(entries)@.len() && (#[trigger] old(entries)@[i]).0@ == name@ && (forall|j: int|
                0 <= j < i ==> (#[trigger] old(entries)@[j]).0@ != name@) && final(entries)@ == old(
                entries,
            )@.update(i, (name, value)),
        !had_previous ==> final(entries)@ == old(entries)@.push((name, value)),
{
    let mut i: usize = 0;
    while i < entries.len()
        invariant
            i <= entries@.len(),
            entries@ == old(entries)@,
            forall|j: int| 0 <= j < i ==> (#[trigger] entries@[j]).0@ != name@,
        decreases entries.len() - i,
    {
        if entries[i].0 == name {
            assert(entries@[i as int].0@ == name@);
            entries.set(i, (name, value));
            return true;
        }
        i = i + 1;
    }
    entries.push((name, value));
    false
}

/// After setting a name's value, looking the name up gives that value, and
/// every other name keeps its value.
pub proof fn lemma_lookup_after_insert<V>(s: Seq<(String, V)>, i: int, name: String, value: V, k: Seq<char>)
    requires
        0 <= i < s.len(),
        s[i].0@ == name@,
        forall|j: int| 0 <= j < i ==> (#[trigger] s[j]).0@ != name@,
    ensures
        lookup(s.update(i, (name, value)), name@) == Some(value),
        k != name@ ==> lookup(s.update(i, (name, value)), k) == lookup(s, k),
    decreases i,
{
    let u = s.update(i, (name, value));
    if i == 0 {
        assert(u[0] == (name, value));
        if k != name@ {
            assert(u.drop_first() =~= s.drop_first());
        }
    } else {
        assert(u.drop_first() =~= s.drop_first().update(i - 1, (name, value)));
        assert(s[0].0@ != name@);
        assert forall|j: int| 0 <= j < i - 1 implies (#[trigger] s.drop_first()[j]).0@ != name@ by {
            assert(s.drop_first()[j] == s[j + 1]);
        }
        lemma_lookup_after_insert(s.drop_first(), i - 1, name, value, k);
        assert(u[0] == s[0]);
    }
}

/// Adding a new name at the end makes it look up to its value, and every
/// other name keeps its value.
pub proof fn lemma_lookup_after_push<V>(s: Seq<(String, V)>, name: String, value: V, k: Seq<char>)
    requires
        !has_name(s, name@),
    ensures
        lookup(s.push((name, value)), name@) == Some(value),
        k != name@ ==> lookup(s.push((name, value)), k) == lookup(s, k),
{
    lemma_lookup_push(s, (name, value), name@);
    lemma_lookup_push(s, (name, value), k);
    if !has_name(s, k) {
        lemma_lookup_none(s, k);
    }
}

proof fn lemma_lookup_none<V>(s: Seq<(String, V)>, k: Seq<char>)
    requires
        !has_name(s, k),
    ensures
        lookup(s, k) is None,
    decreases s.len(),
{
    if s.len() > 0 {
        assert(s[0].0@ != k);
        assert forall|i: int| 0 <= i < s.drop_first().len() implies (#[trigger] s.drop_first()[i]).0@
            != k by {
            assert(s.drop_first()[i] == s[i + 1]);
        }
        lemma_lookup_none(s.drop_first(), k);
    }
}

// ---------------------------------------------------------------------------
// Sections and keys across locales.
// ---------------------------------------------------------------------------

/// A section of a locale with the names of its keys: `keys` are the names
/// that the section contributes to the sections and keys of all locales, and
/// `plain_keys` those that a lookup by name finds in it (the keys that are
/// plain strings).
#[derive(Debug, Clone)]
pub struct SectionKeys {
    pub name: String,
    pub keys: Vec<String>,
    pub plain_keys: Vec<String>,
}

/// A locale with its sections.
#[derive(Debug, Clone)]
pub struct LocaleSections {
    pub name: String,
    pub sections: Vec<SectionKeys>,
}

/// Something that one locale lacks and another has.
#[derive(Debug, Clone, PartialEq, Eq)]
pub enum Missing {
    Section { locale: String, section: String },
    Key { locale: String, section: String, key: String },
}

pub enum MissingV {
    Section(Seq<char>, Seq<char>),
    Key(Seq<char>, Seq<char>, Seq<char>),
}

impl View for Missing {
    type V = MissingV;

    open spec fn view(&self) -> MissingV {
        match self {
            Missing::Section { locale, section } => MissingV::Section(locale@, section@),
            Missing::Key { locale, section, key } => MissingV::Key(locale@, section@, key@),
        }
    }
}

pub open spec fn section_has_key(sec: SectionKeys, k: Seq<char>) -> bool {
    exists|m: int| 0 <= m < sec.keys@.len() && (#[trigger] sec.keys@[m])@ == k
}

/// A lookup of the key name `k` in the section finds it.
pub open spec fn section_finds_key(sec: SectionKeys, k: Seq<char>) -> bool {
    exists|m: int| 0 <= m < sec.plain_keys@.len() && (#[trigger] sec.plain_keys@[m])@ == k
}

/// Some section named `s` among `secs` has the key `k`.
pub open spec fn sections_have_pair(secs: Seq<SectionKeys>, s: Seq<char>, k: Seq<char>) -> bool {
    exists|j: int| 0 <= j < secs.len() && (#[trigger] secs[j]).name@ == s && section_has_key(secs[j], k)
}

/// Some locale has a section named `s` with the key `k`.
pub open spec fn global_pair(ls: Seq<LocaleSections>, s: Seq<char>, k: Seq<char>) -> bool {
    exists|i: int| 0 <= i < ls.len() && sections_have_pair((#[trigger] ls[i]).sections@, s, k)
}

/// The index of the first section of `secs` named `s`.
pub open spec fn find_section(secs: Seq<SectionKeys>, s: Seq<char>) -> Option<int>
    decreases secs.len(),
{
    if secs.len() == 0 {
        None
    } else if secs.last().name@ == s && find_section(secs.drop_last(), s) is None {
        Some(secs.len() - 1)
    } else {
        find_section(secs.drop_last(), s)
    }
}

/// The groups have distinct names, each group has distinct keys and at least one.
pub open spec fn groups_ok(gs: Seq<SectionKeys>) -> bool {
    &&& forall|a: int, b: int| 0 <= a < b < gs.len() ==> (#[trigger] gs[a]).name@ != (#[trigger] gs[b]).name@
    &&& forall|g: int| 0 <= g < gs.len() ==> (#[trigger] gs[g]).keys@.len() > 0
    &&& forall|g: int, a: int, b: int|
        0 <= g < gs.len() && 0 <= a < b < gs[g].keys@.len() ==> (#[trigger] gs[g].keys@[a])@
            != (#[trigger] gs[g].keys@[b])@
}

/// What `locale` lacks of what the locales have, for the section and key
/// names of all of them: a section that some locale has with a key, or a key
/// of such a section where the locale has the section (the first one of that
/// name) but a lookup of the key's name does not find it there.
pub open spec fn lacks(ls: Seq<LocaleSections>, locale: LocaleSections, m: MissingV) -> bool {
    match m {
        MissingV::Section(l, s) => l == locale.name@ && (exists|k: Seq<char>| #[trigger] global_pair(ls, s, k))
            && find_section(locale.sections@, s) is None,
        MissingV::Key(l, s, k) => l == locale.name@ && global_pair(ls, s, k) && match find_section(
            locale.sections@,
            s,
        ) {
            Some(j) => !section_finds_key(locale.sections@[j], k),
            None => false,
        },
    }
}

/// What some locale lacks of what the locales have.
pub open spec fn missing_report(ls: Seq<LocaleSections>, m: MissingV) -> bool {
    exists|i: int| 0 <= i < ls.len() && lacks(ls, #[trigger] ls[i], m)
}

proof fn lemma_find_section(secs: Seq<SectionKeys>, s: Seq<char>)
    ensures
        find_section(secs, s) matches Some(j) ==> 0 <= j < secs.len() && secs[j].name@ == s && forall|
            i: int,
        | 0 <= i < j ==> (#[trigger] secs[i]).name@ != s,
        find_section(secs, s) is None ==> forall|i: int| 0 <= i < secs.len() ==> (#[trigger] secs[i]).name@ != s,
    decreases secs.len(),
{
    if secs.len() > 0 {
        lemma_find_section(secs.drop_last(), s);
        assert forall|i: int| 0 <= i < secs.len() - 1 implies (#[trigger] secs[i]) == secs.drop_last()[i] by {}
    }
}

fn string_in(v: &Vec<String>, k: &String) -> (res: bool)
    ensures
        res == exists|m: int| 0 <= m < v@.len() && (#[trigger] v@[m])@ == k@,
{
    let mut i: usize = 0;
    while i < v.len()
        invariant
            i <= v@.len(),
            forall|m: int| 0 <= m < i ==> (#[trigger] v@[m])@ != k@,
        decreases v.len() - i,
    {
        if v[i] == *k {
            assert(v@[i as int]@ == k@);
            return true;
        }
        i = i + 1;
    }
    false
}

/// The index of the first section of `secs` named like `s`.
fn section_index(secs: &Vec<SectionKeys>, s: &String) -> (res: Option<usize>)
    ensures
        match find_section(secs@, s@) {
            Some(j) => res matches Some(r) && r as int == j,
            None => res is None,
        },
{
    proof {
        lemma_find_section(secs@, s@);
    }
    let mut i: usize = 0;
    while i < secs.len()
        invariant
            i <= secs@.len(),
            forall|m: int| 0 <= m < i ==> (#[trigger] secs@[m]).name@ != s@,
        decreases secs.len() - i,
    {
        if secs[i].name == *s {
            assert(secs@[i as int].name@ == s@);
            proof {
                lemma_find_section(secs@, s@);
            }
            return Some(i);
        }
        i = i + 1;
    }
    proof {
        lemma_find_section(secs@, s@);
    }
    None
}

fn copy_string(s: &String) -> (res: String)
    ensures
        res@ == s@,
{
    s.clone()
}

/// Adding a key to one group adds exactly that pair.
proof fn lemma_pairs_after_key_push(old_g: Seq<SectionKeys>, new_g: Seq<SectionKeys>, j: int, k: Seq<char>)
    requires
        0 <= j < old_g.len(),
        new_g.len() == old_g.len(),
        forall|g: int| 0 <= g < old_g.len() && g != j ==> #[trigger] new_g[g] == old_g[g],
        new_g[j].name@ == old_g[j].name@,
        new_g[j].keys@.len() == old_g[j].keys@.len() + 1,
        forall|m: int| 0 <= m < old_g[j].keys@.len() ==> #[trigger] new_g[j].keys@[m] == old_g[j].keys@[m],
        new_g[j].keys@[old_g[j].keys@.len() as int]@ == k,
    ensures
        forall|s2: Seq<char>, k2: Seq<char>|
            #[trigger] sections_have_pair(new_g, s2, k2) == (sections_have_pair(old_g, s2, k2) || (s2
                == old_g[j].name@ && k2 == k)),
{
    assert forall|s2: Seq<char>, k2: Seq<char>|
        #[trigger] sections_have_pair(new_g, s2, k2) == (sections_have_pair(old_g, s2, k2) || (s2
            == old_g[j].name@ && k2 == k)) by {
        if sections_have_pair(new_g, s2, k2) {
            let jj = choose|jj: int| 0 <= jj < new_g.len() && (#[trigger] new_g[jj]).name@ == s2
                && section_has_key(new_g[jj], k2);
            if jj != j {
                assert(new_g[jj] == old_g[jj]);
            } else {
                let m = choose|m: int| 0 <= m < new_g[jj].keys@.len() && (#[trigger] new_g[jj].keys@[m])@ == k2;
                if m < old_g[j].keys@.len() {
                    assert(old_g[jj].keys@[m] == new_g[jj].keys@[m]);
                }
            }
        }
        if sections_have_pair(old_g, s2, k2) {
            let jj = choose|jj: int| 0 <= jj < old_g.len() && (#[trigger] old_g[jj]).name@ == s2
                && section_has_key(old_g[jj], k2);
            if jj != j {
                assert(new_g[jj] == old_g[jj]);
            } else {
                let m = choose|m: int| 0 <= m < old_g[jj].keys@.len() && (#[trigger] old_g[jj].keys@[m])@ == k2;
                assert(old_g[jj].keys@[m] == new_g[jj].keys@[m]);
            }
        }
        if s2 == old_g[j].name@ && k2 == k {
            assert(new_g[j].keys@[old_g[j].keys@.len() as int]@ == k2);
        }
    }
}

/// Adding a new group with one key adds exactly that pair.
proof fn lemma_pairs_after_group_push(old_g: Seq<SectionKeys>, new_g: Seq<SectionKeys>, s: Seq<char>, k: Seq<char>)
    requires
        new_g.len() == old_g.len() + 1,
        forall|g: int| 0 <= g < old_g.len() ==> #[trigger] new_g[g] == old_g[g],
        new_g[old_g.len() as int].name@ == s,
        new_g[old_g.len() as int].keys@.len() == 1,
        new_g[old_g.len() as int].keys@[0]@ == k,
    ensures
        forall|s2: Seq<char>, k2: Seq<char>|
            #[trigger] sections_have_pair(new_g, s2, k2) == (sections_have_pair(old_g, s2, k2) || (s2 == s && k2
                == k)),
{
    let last = old_g.len() as int;
    assert forall|s2: Seq<char>, k2: Seq<char>|
        #[trigger] sections_have_pair(new_g, s2, k2) == (sections_have_pair(old_g, s2, k2) || (s2 == s && k2
            == k)) by {
        if sections_have_pair(new_g, s2, k2) {
            let jj = choose|jj: int| 0 <= jj < new_g.len() && (#[trigger] new_g[jj]).name@ == s2
                && section_has_key(new_g[jj], k2);
            if jj < last {
                assert(new_g[jj] == old_g[jj]);
            } else {
                let m = choose|m: int| 0 <= m < new_g[jj].keys@.len() && (#[trigger] new_g[jj].keys@[m])@ == k2;
                assert(m == 0);
            }
        }
        if sections_have_pair(old_g, s2, k2) {
            let jj = choose|jj: int| 0 <= jj < old_g.len() && (#[trigger] old_g[jj]).name@ == s2
                && section_has_key(old_g[jj], k2);
            assert(new_g[jj] == old_g[jj]);
        }
        if s2 == s && k2 == k {
            assert(new_g[last].name@ == s2 && section_has_key(new_g[last], k2));
        }
    }
}

/// Adds the key `k` to the group named `s`, which it creates if needed.
fn add_pair(groups: &mut Vec<SectionKeys>, s: &String, k: &String)
    requires
        groups_ok(old(groups)@),
    ensures
        groups_ok(final(groups)@),
        forall|s2: Seq<char>, k2: Seq<char>|
            #[trigger] sections_have_pair(final(groups)@, s2, k2) == (sections_have_pair(old(groups)@, s2, k2)
                || (s2 == s@ && k2 == k@)),
{
    let ghost old_g = groups@;
    proof {
        lemma_find_section(old_g, s@);
    }
    let found = section_index(groups, s);
    match found {
        Some(j) => {
            assert(find_section(old_g, s@) is Some);
            assert(0 <= find_section(old_g, s@)->0 < old_g.len());
            assert(find_section(old_g, s@)->0 == j as int);
            if string_in(&groups[j].keys, k) {
                let ghost m = choose|m: int| 0 <= m < old_g[j as int].keys@.len() && (#[trigger] old_g[j as int].keys@[m])@ == k@;
                assert(section_has_key(old_g[j as int], k@));
                assert(old_g[j as int].name@ == s@);
                assert(sections_have_pair(old_g, s@, k@));
                return;
            }
            assert(old_g[j as int].name@ == s@);
            let mut tmp = SectionKeys { name: String::new(), keys: Vec::new(), plain_keys: Vec::new() };
            groups.set_and_swap(j, &mut tmp);
            let ghost old_keys = tmp.keys@;
            assert(tmp == old_g[j as int]);
            tmp.keys.push(copy_string(k));
            groups.set(j, tmp);
            proof {
                assert forall|g: int| 0 <= g < old_g.len() && g != j implies #[trigger] groups@[g] == old_g[g] by {}
                assert forall|m: int| 0 <= m < old_keys.len() implies #[trigger] groups@[j as int].keys@[m] == old_g[j as int].keys@[m] by {}
                lemma_pairs_after_key_push(old_g, groups@, j as int, k@);
                assert forall|g: int, a: int, b: int|
                    0 <= g < groups@.len() && 0 <= a < b < groups@[g].keys@.len() implies (
                    #[trigger] groups@[g].keys@[a])@ != (#[trigger] groups@[g].keys@[b])@ by {
                    if g != j {
                        assert(groups@[g] == old_g[g]);
                    } else {
                        if b < old_keys.len() {
                            assert(groups@[g].keys@[a] == old_g[g].keys@[a]);
                            assert(groups@[g].keys@[b] == old_g[g].keys@[b]);
                        } else {
                            assert(groups@[g].keys@[a] == old_g[g].keys@[a]);
                        }
                    }
                }
                assert forall|a: int, b: int| 0 <= a < b < groups@.len() implies (#[trigger] groups@[a]).name@
                    != (#[trigger] groups@[b]).name@ by {
                    if a != j {
                        assert(groups@[a] == old_g[a]);
                    }
                    if b != j {
                        assert(groups@[b] == old_g[b]);
                    }
                }
                assert forall|g: int| 0 <= g < groups@.len() implies (#[trigger] groups@[g]).keys@.len() > 0 by {
                    if g != j {
                        assert(groups@[g] == old_g[g]);
                    }
                }
            }
        },
        None => {
            let mut keys: Vec<String> = Vec::new();
            keys.push(copy_string(k));
            groups.push(SectionKeys { name: copy_string(s), keys, plain_keys: Vec::new() });
            proof {
                let last = old_g.len() as int;
                assert forall|g: int| 0 <= g < old_g.len() implies #[trigger] groups@[g] == old_g[g] by {}
                lemma_pairs_after_group_push(old_g, groups@, s@, k@);
                assert forall|g: int, a: int, b: int|
                    0 <= g < groups@.len() && 0 <= a < b < groups@[g].keys@.len() implies (
                    #[trigger] groups@[g].keys@[a])@ != (#[trigger] groups@[g].keys@[b])@ by {
                    if g < last {
                        assert(groups@[g] == old_g[g]);
                    }
                }
                assert forall|a: int, b: int| 0 <= a < b < groups@.len() implies (#[trigger] groups@[a]).name@
                    != (#[trigger] groups@[b]).name@ by {
                    assert(groups@[a] == old_g[a]);
                    if b < last {
                        assert(groups@[b] == old_g[b]);
                    }
                }
                assert forall|g: int| 0 <= g < groups@.len() implies (#[trigger] groups@[g]).keys@.len() > 0 by {
                    if g < last {
                        assert(groups@[g] == old_g[g]);
                    }
                }
            }
        },
    }
}
pub open spec fn key_in_prefix(sec: SectionKeys, m: int, k: Seq<char>) -> bool {
    exists|x: int| 0 <= x < m && x < sec.keys@.len() && (#[trigger] sec.keys@[x])@ == k
}

/// Adds the keys of a section to the groups.
fn add_section(groups: &mut Vec<SectionKeys>, sec: &SectionKeys)
    requires
        groups_ok(old(groups)@),
    ensures
        groups_ok(final(groups)@),
        forall|s2: Seq<char>, k2: Seq<char>|
            #[trigger] sections_have_pair(final(groups)@, s2, k2) == (sections_have_pair(old(groups)@, s2, k2)
                || (s2 == sec.name@ && section_has_key(*sec, k2))),
{
    let ghost start = groups@;
    let n = sec.keys.len();
    let mut m: usize = 0;
    while m < n
        invariant
            n == sec.keys@.len(),
            m <= n,
            groups_ok(groups@),
            forall|s2: Seq<char>, k2: Seq<char>|
                #[trigger] sections_have_pair(groups@, s2, k2) == (sections_have_pair(start, s2, k2) || (s2
                    == sec.name@ && key_in_prefix(*sec, m as int, k2))),
        decreases n - m,
    {
        add_pair(groups, &sec.name, &sec.keys[m]);
        proof {
            assert forall|k2: Seq<char>| #[trigger] key_in_prefix(*sec, m + 1, k2) == (key_in_prefix(*sec, m as int, k2) || k2 == sec.keys@[m as int]@) by {
                if key_in_prefix(*sec, m + 1, k2) {
                    let x = choose|x: int| 0 <= x < m + 1 && x < sec.keys@.len() && (#[trigger] sec.keys@[x])@ == k2;
                    if x < m {
                        assert(key_in_prefix(*sec, m as int, k2));
                    }
                }
                if key_in_prefix(*sec, m as int, k2) {
                    let x = choose|x: int| 0 <= x < m && x < sec.keys@.len() && (#[trigger] sec.keys@[x])@ == k2;
                    assert(0 <= x < m + 1);
                }
            }
        }
        m = m + 1;
    }
    proof {
        assert forall|k2: Seq<char>| #[trigger] key_in_prefix(*sec, n as int, k2) == section_has_key(*sec, k2) by {
            if section_has_key(*sec, k2) {
                let x = choose|x: int| 0 <= x < sec.keys@.len() && (#[trigger] sec.keys@[x])@ == k2;
                assert(key_in_prefix(*sec, n as int, k2));
            }
        }
    }
}

/// Adds the pairs of a locale's sections to the groups.
fn add_locale(groups: &mut Vec<SectionKeys>, locale: &LocaleSections)
    requires
        groups_ok(old(groups)@),
    ensures
        groups_ok(final(groups)@),
        forall|s2: Seq<char>, k2: Seq<char>|
            #[trigger] sections_have_pair(final(groups)@, s2, k2) == (sections_have_pair(old(groups)@, s2, k2)
                || sections_have_pair(locale.sections@, s2, k2)),
{
    let ghost start = groups@;
    let ghost secs = locale.sections@;
    let n = locale.sections.len();
    let mut j: usize = 0;
    while j < n
        invariant
            n == secs.len(),
            secs == locale.sections@,
            j <= n,
            groups_ok(groups@),
            forall|s2: Seq<char>, k2: Seq<char>|
                #[trigger] sections_have_pair(groups@, s2, k2) == (sections_have_pair(start, s2, k2)
                    || sections_have_pair(secs.take(j as int), s2, k2)),
        decreases n - j,
    {
        add_section(groups, &locale.sections[j]);
        proof {
            assert forall|s2: Seq<char>, k2: Seq<char>|
                #[trigger] sections_have_pair(secs.take(j + 1), s2, k2) == (sections_have_pair(secs.take(j as int), s2, k2)
                    || (s2 == secs[j as int].name@ && section_has_key(secs[j as int], k2))) by {
                if sections_have_pair(secs.take(j + 1), s2, k2) {
                    let x = choose|x: int| 0 <= x < secs.take(j + 1).len() && (#[trigger] secs.take(j + 1)[x]).name@ == s2
                        && section_has_key(secs.take(j + 1)[x], k2);
                    if x < j {
                        assert(secs.take(j as int)[x] == secs.take(j + 1)[x]);
                    }
                }
                if sections_have_pair(secs.take(j as int), s2, k2) {
                    let x = choose|x: int| 0 <= x < secs.take(j as int).len() && (#[trigger] secs.take(j as int)[x]).name@ == s2
                        && section_has_key(secs.take(j as int)[x], k2);
                    assert(secs.take(j as int)[x] == secs.take(j + 1)[x]);
                }
                if s2 == secs[j as int].name@ && section_has_key(secs[j as int], k2) {
                    assert(secs.take(j + 1)[j as int] == secs[j as int]);
                }
            }
        }
        j = j + 1;
    }
    assert(secs.take(n as int) =~= secs);
}

/// The section names of all locales, each with the union of its keys over the
/// locales: a pair of section and key is in the result exactly when some locale
/// has it. Sections without keys give no pair.
pub fn collect_section_keys(locales: &Vec<LocaleSections>) -> (res: Vec<SectionKeys>)
    ensures
        groups_ok(res@),
        forall|s: Seq<char>, k: Seq<char>|
            #[trigger] sections_have_pair(res@, s, k) == global_pair(locales@, s, k),
{
    let ghost ls = locales@;
    let mut groups: Vec<SectionKeys> = Vec::new();
    let n = locales.len();
    let mut i: usize = 0;
    while i < n
        invariant
            n == ls.len(),
            ls == locales@,
            i <= n,
            groups_ok(groups@),
            forall|s: Seq<char>, k: Seq<char>|
                #[trigger] sections_have_pair(groups@, s, k) == global_pair(ls.take(i as int), s, k),
        decreases n - i,
    {
        add_locale(&mut groups, &locales[i]);
        proof {
            assert forall|s: Seq<char>, k: Seq<char>|
                #[trigger] global_pair(ls.take(i + 1), s, k) == (global_pair(ls.take(i as int), s, k)
                    || sections_have_pair(ls[i as int].sections@, s, k)) by {
                if global_pair(ls.take(i + 1), s, k) {
                    let x = choose|x: int| 0 <= x < ls.take(i + 1).len() && sections_have_pair((#[trigger] ls.take(i + 1)[x]).sections@, s, k);
                    if x < i {
                        assert(ls.take(i as int)[x] == ls.take(i + 1)[x]);
                    }
                }
                if global_pair(ls.take(i as int), s, k) {
                    let x = choose|x: int| 0 <= x < ls.take(i as int).len() && sections_have_pair((#[trigger] ls.take(i as int)[x]).sections@, s, k);
                    assert(ls.take(i as int)[x] == ls.take(i + 1)[x]);
                }
                if sections_have_pair(ls[i as int].sections@, s, k) {
                    assert(ls.take(i + 1)[i as int] == ls[i as int]);
                }
            }
        }
        i = i + 1;
    }
    assert(ls.take(n as int) =~= ls);
    groups
}

/// Whether the report `out` holds `m`.
pub open spec fn reported(out: Seq<Missing>, m: MissingV) -> bool {
    exists|x: int| 0 <= x < out.len() && (#[trigger] out[x])@ == m
}

/// No two entries of the report are the same.
pub open spec fn no_repeats(out: Seq<Missing>) -> bool {
    forall|a: int, b: int| 0 <= a < b < out.len() ==> (#[trigger] out[a])@ != (#[trigger] out[b])@
}

/// The locale that an entry of the report names.
pub open spec fn missing_locale(m: MissingV) -> Seq<char> {
    match m {
        MissingV::Section(l, _) => l,
        MissingV::Key(l, _, _) => l,
    }
}

/// The section that an entry of the report names.
pub open spec fn missing_section(m: MissingV) -> Seq<char> {
    match m {
        MissingV::Section(_, s) => s,
        MissingV::Key(_, s, _) => s,
    }
}

/// No entry of `out` names the locale `name`.
pub open spec fn locale_absent(out: Seq<Missing>, name: Seq<char>) -> bool {
    forall|j: int| 0 <= j < out.len() ==> missing_locale((#[trigger] out[j])@) != name
}

/// The locales have distinct names.
pub open spec fn distinct_locale_names(ls: Seq<LocaleSections>) -> bool {
    forall|a: int, b: int| 0 <= a < b < ls.len() ==> (#[trigger] ls[a]).name@ != (#[trigger] ls[b]).name@
}

proof fn lemma_no_repeats_push(out: Seq<Missing>, x: Missing)
    requires
        no_repeats(out),
        !reported(out, x@),
    ensures
        no_repeats(out.push(x)),
{
    let o = out.push(x);
    assert forall|a: int, b: int| 0 <= a < b < o.len() implies (#[trigger] o[a])@ != (#[trigger] o[b])@ by {
        assert(o[a] == out[a]);
        if b < out.len() {
            assert(o[b] == out[b]);
        }
    }
}

/// An entry for group `g` is not among those reported for the groups before it,
/// when the report started without entries for the locale.
proof fn lemma_group_entry_fresh(
    start: Seq<Missing>,
    before: Seq<Missing>,
    gs: Seq<SectionKeys>,
    g: int,
    locale: LocaleSections,
    m: MissingV,
)
    requires
        0 <= g < gs.len(),
        groups_ok(gs),
        locale_absent(start, locale.name@),
        forall|mv: MissingV|
            #[trigger] reported(before, mv) == (reported(start, mv) || lacks_in_groups(gs.take(g), locale, mv)),
        missing_locale(m) == locale.name@,
        missing_section(m) == gs[g].name@,
    ensures
        !reported(before, m),
{
    if reported(start, m) {
        let j = choose|j: int| 0 <= j < start.len() && (#[trigger] start[j])@ == m;
        assert(missing_locale(start[j]@) != locale.name@);
    }
    let t = gs.take(g);
    match m {
        MissingV::Section(l, s) => {
            if exists|h: int| 0 <= h < t.len() && (#[trigger] t[h]).name@ == s {
                let h = choose|h: int| 0 <= h < t.len() && (#[trigger] t[h]).name@ == s;
                assert(t[h] == gs[h]);
                assert(gs[h].name@ != gs[g].name@);
            }
        },
        MissingV::Key(l, s, k) => {
            if sections_have_pair(t, s, k) {
                let h = choose|h: int| 0 <= h < t.len() && (#[trigger] t[h]).name@ == s && section_has_key(t[h], k);
                assert(t[h] == gs[h]);
                assert(gs[h].name@ != gs[g].name@);
            }
        },
    }
}

/// `lacks`, stated over the groups of section keys.
pub open spec fn lacks_in_groups(gs: Seq<SectionKeys>, locale: LocaleSections, m: MissingV) -> bool {
    match m {
        MissingV::Section(l, s) => l == locale.name@ && (exists|g: int| 0 <= g < gs.len() && (#[trigger] gs[g]).name@ == s)
            && find_section(locale.sections@, s) is None,
        MissingV::Key(l, s, k) => l == locale.name@ && sections_have_pair(gs, s, k) && match find_section(
            locale.sections@,
            s,
        ) {
            Some(j) => !section_finds_key(locale.sections@[j], k),
            None => false,
        },
    }
}

proof fn lemma_reported_push(out: Seq<Missing>, x: Missing, m: MissingV)
    ensures
        reported(out.push(x), m) == (reported(out, m) || x@ == m),
{
    if reported(out.push(x), m) {
        let i = choose|i: int| 0 <= i < out.push(x).len() && (#[trigger] out.push(x)[i])@ == m;
        if i < out.len() {
            assert(out[i] == out.push(x)[i]);
        }
    }
    if reported(out, m) {
        let i = choose|i: int| 0 <= i < out.len() && (#[trigger] out[i])@ == m;
        assert(out.push(x)[i] == out[i]);
    }
    if x@ == m {
        assert(out.push(x)[out.len() as int] == x);
    }
}

proof fn lemma_lacks_in_groups(ls: Seq<LocaleSections>, gs: Seq<SectionKeys>, locale: LocaleSections, m: MissingV)
    requires
        groups_ok(gs),
        forall|s: Seq<char>, k: Seq<char>| #[trigger] sections_have_pair(gs, s, k) == global_pair(ls, s, k),
    ensures
        lacks_in_groups(gs, locale, m) == lacks(ls, locale, m),
{
    match m {
        MissingV::Section(l, s) => {
            if exists|g: int| 0 <= g < gs.len() && (#[trigger] gs[g]).name@ == s {
                let g = choose|g: int| 0 <= g < gs.len() && (#[trigger] gs[g]).name@ == s;
                let k = gs[g].keys@[0]@;
                assert(section_has_key(gs[g], k));
                assert(sections_have_pair(gs, s, k));
                assert(global_pair(ls, s, k));
            }
            if exists|k: Seq<char>| #[trigger] global_pair(ls, s, k) {
                let k = choose|k: Seq<char>| #[trigger] global_pair(ls, s, k);
                assert(sections_have_pair(gs, s, k));
                let g = choose|g: int| 0 <= g < gs.len() && (#[trigger] gs[g]).name@ == s && section_has_key(gs[g], k);
            }
        },
        MissingV::Key(l, s, k) => {
            assert(sections_have_pair(gs, s, k) == global_pair(ls, s, k));
        },
    }
}

/// Adds to `out` what `locale` lacks of the groups.
fn report_locale(groups: &Vec<SectionKeys>, locale: &LocaleSections, out: &mut Vec<Missing>)
    requires
        groups_ok(groups@),
    ensures
        forall|m: MissingV|
            #[trigger] reported(final(out)@, m) == (reported(old(out)@, m) || lacks_in_groups(groups@, *locale, m)),
        no_repeats(old(out)@) && locale_absent(old(out)@, locale.name@) ==> no_repeats(final(out)@),
{
    let ghost start = out@;
    let ghost gs = groups@;
    let n = groups.len();
    let mut g: usize = 0;
    while g < n
        invariant
            n == gs.len(),
            gs == groups@,
            g <= n,
            groups_ok(gs),
            forall|m: MissingV|
                #[trigger] reported(out@, m) == (reported(start, m) || lacks_in_groups(gs.take(g as int), *locale, m)),
            no_repeats(start) && locale_absent(start, locale.name@) ==> no_repeats(out@),
        decreases n - g,
    {
        let grp = &groups[g];
        let ghost before = out@;
        proof {
            lemma_find_section(locale.sections@, grp.name@);
        }
        match section_index(&locale.sections, &grp.name) {
            None => {
                let x = Missing::Section { locale: copy_string(&locale.name), section: copy_string(&grp.name) };
                proof {
                    if no_repeats(start) && locale_absent(start, locale.name@) {
                        lemma_group_entry_fresh(start, before, gs, g as int, *locale, x@);
                        lemma_no_repeats_push(before, x);
                    }
                }
                out.push(x);
                proof {
                    assert forall|m: MissingV|
                        #[trigger] reported(out@, m) == (reported(start, m) || lacks_in_groups(gs.take(g + 1), *locale, m)) by {
                        lemma_reported_push(before, x, m);
                        lemma_lacks_step(gs, g as int, *locale, m);
                        match m {
                            MissingV::Key(l, s, k) => {
                                if s == grp.name@ {
                                    assert(find_section(locale.sections@, s) is None);
                                }
                            },
                            _ => {},
                        }
                    }
                }
            },
            Some(j) => {
                let sec = &locale.sections[j];
                let nk = grp.keys.len();
                let mut m: usize = 0;
                while m < nk
                    invariant
                        nk == grp.keys@.len(),
                        m <= nk,
                        *sec == locale.sections@[j as int],
                        n == gs.len(),
                        g < n,
                        groups_ok(gs),
                        *grp == gs[g as int],
                        forall|mv: MissingV|
                            #[trigger] reported(before, mv) == (reported(start, mv) || lacks_in_groups(
                                gs.take(g as int),
                                *locale,
                                mv,
                            )),
                        no_repeats(start) && locale_absent(start, locale.name@) ==> no_repeats(out@),
                        forall|mv: MissingV|
                            #[trigger] reported(out@, mv) == (reported(before, mv) || match mv {
                                MissingV::Key(l, s, k) => l == locale.name@ && s == grp.name@ && key_in_prefix(
                                    *grp,
                                    m as int,
                                    k,
                                ) && !section_finds_key(*sec, k),
                                _ => false,
                            }),
                    decreases nk - m,
                {
                    let ghost before_m = out@;
                    if !string_in(&sec.plain_keys, &grp.keys[m]) {
                        let x = Missing::Key {
                            locale: copy_string(&locale.name),
                            section: copy_string(&grp.name),
                            key: copy_string(&grp.keys[m]),
                        };
                        proof {
                            if no_repeats(start) && locale_absent(start, locale.name@) {
                                lemma_group_entry_fresh(start, before, gs, g as int, *locale, x@);
                                if key_in_prefix(*grp, m as int, x@->Key_2) {
                                    let y = choose|y: int| 0 <= y < m && y < grp.keys@.len() && (#[trigger] grp.keys@[y])@ == x@->Key_2;
                                    assert(gs[g as int].keys@[y]@ != gs[g as int].keys@[m as int]@);
                                }
                                lemma_no_repeats_push(before_m, x);
                            }
                        }
                        out.push(x);
                        proof {
                            assert forall|mv: MissingV| #[trigger] reported(out@, mv) == (reported(before_m, mv) || x@ == mv) by {
                                lemma_reported_push(before_m, x, mv);
                            }
                        }
                    }
                    proof {
                        assert forall|k2: Seq<char>| #[trigger] key_in_prefix(*grp, m + 1, k2) == (key_in_prefix(*grp, m as int, k2) || k2 == grp.keys@[m as int]@) by {
                            if key_in_prefix(*grp, m + 1, k2) {
                                let x = choose|x: int| 0 <= x < m + 1 && x < grp.keys@.len() && (#[trigger] grp.keys@[x])@ == k2;
                                if x < m {
                                    assert(key_in_prefix(*grp, m as int, k2));
                                }
                            }
                            if key_in_prefix(*grp, m as int, k2) {
                                let x = choose|x: int| 0 <= x < m && x < grp.keys@.len() && (#[trigger] grp.keys@[x])@ == k2;
                                assert(0 <= x < m + 1);
                            }
                        }
                    }
                    m = m + 1;
                }
                proof {
                    assert forall|mv: MissingV|
                        #[trigger] reported(out@, mv) == (reported(start, mv) || lacks_in_groups(gs.take(g + 1), *locale, mv)) by {
                        lemma_lacks_step(gs, g as int, *locale, mv);
                        match mv {
                            MissingV::Key(l, s, k) => {
                                if s == grp.name@ {
                                    if section_has_key(*grp, k) {
                                        let x = choose|x: int| 0 <= x < grp.keys@.len() && (#[trigger] grp.keys@[x])@ == k;
                                        assert(key_in_prefix(*grp, nk as int, k));
                                    }
                                    if key_in_prefix(*grp, nk as int, k) {
                                        let x = choose|x: int| 0 <= x < nk && x < grp.keys@.len() && (#[trigger] grp.keys@[x])@ == k;
                                        assert(section_has_key(*grp, k));
                                    }
                                }
                            },
                            _ => {},
                        }
                    }
                }
            },
        }
        g = g + 1;
    }
    assert(gs.take(n as int) =~= gs);
}

/// What locale lacks of the groups up to `g + 1`: that of the groups up to `g`
/// and that of group `g`.
proof fn lemma_lacks_step(gs: Seq<SectionKeys>, g: int, locale: LocaleSections, m: MissingV)
    requires
        0 <= g < gs.len(),
        groups_ok(gs),
    ensures
        lacks_in_groups(gs.take(g + 1), locale, m) == (lacks_in_groups(gs.take(g), locale, m) || match m {
            MissingV::Section(l, s) => l == locale.name@ && s == gs[g].name@ && find_section(locale.sections@, s) is None,
            MissingV::Key(l, s, k) => l == locale.name@ && s == gs[g].name@ && section_has_key(gs[g], k) && match find_section(
                locale.sections@,
                s,
            ) {
                Some(j) => !section_finds_key(locale.sections@[j], k),
                None => false,
            },
        }),
{
    let t1 = gs.take(g + 1);
    let t0 = gs.take(g);
    assert(t1[g] == gs[g]);
    assert forall|x: int| 0 <= x < g implies #[trigger] t1[x] == t0[x] by {}
    match m {
        MissingV::Section(l, s) => {
            if exists|x: int| 0 <= x < t1.len() && (#[trigger] t1[x]).name@ == s {
                let x = choose|x: int| 0 <= x < t1.len() && (#[trigger] t1[x]).name@ == s;
                if x < g {
                    assert(t0[x].name@ == s);
                }
            }
            if exists|x: int| 0 <= x < t0.len() && (#[trigger] t0[x]).name@ == s {
                let x = choose|x: int| 0 <= x < t0.len() && (#[trigger] t0[x]).name@ == s;
                assert(t1[x].name@ == s);
            }
        },
        MissingV::Key(l, s, k) => {
            if sections_have_pair(t1, s, k) {
                let x = choose|x: int| 0 <= x < t1.len() && (#[trigger] t1[x]).name@ == s && section_has_key(t1[x], k);
                if x < g {
                    assert(t0[x] == t1[x]);
                }
            }
            if sections_have_pair(t0, s, k) {
                let x = choose|x: int| 0 <= x < t0.len() && (#[trigger] t0[x]).name@ == s && section_has_key(t0[x], k);
                assert(t1[x] == t0[x]);
            }
        },
    }
}

/// The report of what each locale lacks of the section and key names that the
/// locales have: each entry names the locale and the missing section, or the
/// section and the missing key.
pub fn check_missing_sections_and_keys(locales: &Vec<LocaleSections>) -> (res: Vec<Missing>)
    ensures
        forall|m: MissingV| #[trigger] reported(res@, m) == missing_report(locales@, m),
        distinct_locale_names(locales@) ==> no_repeats(res@),
{
    let groups = collect_section_keys(locales);
    let ghost ls = locales@;
    let mut out: Vec<Missing> = Vec::new();
    let n = locales.len();
    let mut i: usize = 0;
    while i < n
        invariant
            n == ls.len(),
            ls == locales@,
            i <= n,
            groups_ok(groups@),
            forall|s: Seq<char>, k: Seq<char>| #[trigger] sections_have_pair(groups@, s, k) == global_pair(ls, s, k),
            forall|m: MissingV|
                #[trigger] reported(out@, m) == (exists|x: int| 0 <= x < i && lacks(ls, #[trigger] ls[x], m)),
            distinct_locale_names(ls) ==> no_repeats(out@),
        decreases n - i,
    {
        proof {
            if distinct_locale_names(ls) {
                assert forall|j: int| 0 <= j < out@.len() implies missing_locale((#[trigger] out@[j])@) != ls[i as int].name@ by {
                    assert(reported(out@, out@[j]@));
                    let x = choose|x: int| 0 <= x < i && lacks(ls, #[trigger] ls[x], out@[j]@);
                    assert(ls[x].name@ != ls[i as int].name@);
                }
            }
        }
        report_locale(&groups, &locales[i], &mut out);
        proof {
            assert forall|m: MissingV|
                #[trigger] reported(out@, m) == (exists|x: int| 0 <= x < i + 1 && lacks(ls, #[trigger] ls[x], m)) by {
                lemma_lacks_in_groups(ls, groups@, ls[i as int], m);
                if lacks(ls, ls[i as int], m) {
                    assert(0 <= i < i + 1);
                }
            }
        }
        i = i + 1;
    }
    out
}

} // verus!
