use crate::locale_data::{has_name, insert_replacing, LocaleSections, SectionKeys};
use crate::text::string_of_range;
use crate::vec_util::reversed;
use crate::yaml::{
    as_mapping_v, as_str_v, copy_node, doc_get, key_value_of, lemma_pairs_view, node_mapping,
    node_str, pairs_view, parse_yaml, spec_yaml, untag, untag_node, YamlError,
    YamlNode, YamlV,
};
use vstd::prelude::*;

verus! {

// ---------------------------------------------------------------------------
// The entries of one locale file.
// ---------------------------------------------------------------------------

/// What one locale file gives, in the order of the file: its rules and
/// sections, each a name with the mapping under it, and the parts that are
/// not of that form.
#[derive(Debug)]
pub enum FileItem {
    Rule(String, YamlNode),
    Section(String, YamlNode),
    /// `$rules` is there and is not a mapping; the rest of the file is skipped.
    InvalidRules,
    /// An entry of `$rules` whose name is not a string or whose value is not a mapping.
    InvalidRule,
    /// `$sections` is there and is not a mapping.
    InvalidSections,
    /// An entry of `$sections` whose name is not a string or whose value is not a mapping.
    InvalidSection,
}

pub enum FileItemV {
    Rule(Seq<char>, YamlV),
    Section(Seq<char>, YamlV),
    InvalidRules,
    InvalidRule,
    InvalidSections,
    InvalidSection,
}

impl View for FileItem {
    type V = FileItemV;

    open spec fn view(&self) -> FileItemV {
        match self {
            FileItem::Rule(n, x) => FileItemV::Rule(n@, x@),
            FileItem::Section(n, x) => FileItemV::Section(n@, x@),
            FileItem::InvalidRules => FileItemV::InvalidRules,
            FileItem::InvalidRule => FileItemV::InvalidRule,
            FileItem::InvalidSections => FileItemV::InvalidSections,
            FileItem::InvalidSection => FileItemV::InvalidSection,
        }
    }
}

pub open spec fn items_view(s: Seq<FileItem>) -> Seq<FileItemV> {
    s.map_values(|i: FileItem| i@)
}

pub open spec fn rules_key() -> Seq<char> {
    seq!['$', 'r', 'u', 'l', 'e', 's']
}

pub open spec fn sections_key() -> Seq<char> {
    seq!['$', 's', 'e', 'c', 't', 'i', 'o', 'n', 's']
}

/// The item that one pair under `$rules` (or `$sections`) gives: a string name
/// with a mapping value gives the entry, the mapping taken inside its tags.
pub open spec fn entry_item(p: (YamlV, YamlV), rules: bool) -> FileItemV {
    match (as_str_v(p.0), as_mapping_v(p.1)) {
        (Some(n), Some(_)) => if rules {
            FileItemV::Rule(n, untag(p.1))
        } else {
            FileItemV::Section(n, untag(p.1))
        },
        _ => if rules {
            FileItemV::InvalidRule
        } else {
            FileItemV::InvalidSection
        },
    }
}

pub open spec fn entry_items(m: Seq<(YamlV, YamlV)>, rules: bool) -> Seq<FileItemV> {
    m.map_values(|p: (YamlV, YamlV)| entry_item(p, rules))
}

/// The items of a locale document: those of `$rules`, then those of
/// `$sections`. A `$rules` that is not a mapping gives only `InvalidRules`.
pub open spec fn spec_file_items(doc: YamlV) -> Seq<FileItemV> {
    let rules_part: Option<Seq<FileItemV>> = match doc_get(doc, rules_key()) {
        None => Some(Seq::empty()),
        Some(v) => match as_mapping_v(v) {
            Some(m) => Some(entry_items(m, true)),
            None => None,
        },
    };
    match rules_part {
        None => seq![FileItemV::InvalidRules],
        Some(r) => r + match doc_get(doc, sections_key()) {
            None => Seq::empty(),
            Some(v) => match as_mapping_v(v) {
                Some(m) => entry_items(m, false),
                None => seq![FileItemV::InvalidSections],
            },
        },
    }
}

fn string_of(cs: &Vec<char>) -> (res: String)
    ensures
        res@ == cs@,
{
    let s = string_of_range(cs, 0, cs.len());
    assert(cs@.subrange(0, cs@.len() as int) =~= cs@);
    s
}

/// Appends the items of the pairs of `m`.
fn push_entry_items(m: &Vec<(YamlNode, YamlNode)>, rules: bool, out: &mut Vec<FileItem>)
    ensures
        items_view(final(out)@) == items_view(old(out)@) + entry_items(pairs_view(m@), rules),
{
    let ghost start = items_view(out@);
    let ghost pv = pairs_view(m@);
    proof {
        lemma_pairs_view(m@);
    }
    let mut i: usize = 0;
    assert(entry_items(pv.take(0), rules) =~= Seq::<FileItemV>::empty());
    assert(items_view(out@) =~= start + entry_items(pv.take(0), rules));
    while i < m.len()
        invariant
            i <= m@.len(),
            pv == pairs_view(m@),
            pv.len() == m@.len(),
            forall|j: int| 0 <= j < m@.len() ==> #[trigger] pv[j] == (m@[j].0@, m@[j].1@),
            items_view(out@) == start + entry_items(pv.take(i as int), rules),
        decreases m.len() - i,
    {
        let ghost before = out@;
        let item = match (node_str(&m[i].0), node_mapping(&m[i].1)) {
            (Some(n), Some(_)) => {
                let x = copy_node(untag_node(&m[i].1));
                if rules {
                    FileItem::Rule(n, x)
                } else {
                    FileItem::Section(n, x)
                }
            },
            _ => if rules {
                FileItem::InvalidRule
            } else {
                FileItem::InvalidSection
            },
        };
        assert(item@ == entry_item(pv[i as int], rules));
        out.push(item);
        proof {
            assert(items_view(out@) =~= items_view(before).push(item@));
            assert(entry_items(pv.take(i + 1), rules) =~= entry_items(pv.take(i as int), rules).push(
                entry_item(pv[i as int], rules),
            ));
        }
        i = i + 1;
    }
    assert(pv.take(m@.len() as int) =~= pv);
}

/// The items of a locale document, in the order of the document.
pub fn entries_of_document(doc: &YamlNode) -> (res: Vec<FileItem>)
    ensures
        items_view(res@) == spec_file_items(doc@),
{
    let rules_name = string_of(&vec!['$', 'r', 'u', 'l', 'e', 's']);
    let sections_name = string_of(&vec!['$', 's', 'e', 'c', 't', 'i', 'o', 'n', 's']);
    assert(rules_name@ == rules_key());
    assert(sections_name@ == sections_key());
    let mut out: Vec<FileItem> = Vec::new();
    assert(items_view(out@) =~= Seq::<FileItemV>::empty());
    let top = node_mapping(doc);
    let rules = match top {
        Some(m) => key_value_of(m, &rules_name),
        None => None,
    };
    let sections = match top {
        Some(m) => key_value_of(m, &sections_name),
        None => None,
    };
    if let Some(r) = rules {
        match node_mapping(r) {
            Some(m) => {
                push_entry_items(m, true, &mut out);
            },
            None => {
                out.push(FileItem::InvalidRules);
                assert(items_view(out@) =~= seq![FileItemV::InvalidRules]);
                return out;
            },
        }
    }
    let ghost after_rules = items_view(out@);
    if let Some(s) = sections {
        match node_mapping(s) {
            Some(m) => {
                push_entry_items(m, false, &mut out);
            },
            None => {
                out.push(FileItem::InvalidSections);
                assert(items_view(out@) =~= after_rules + seq![FileItemV::InvalidSections]);
            },
        }
    } else {
        assert(items_view(out@) =~= after_rules + Seq::<FileItemV>::empty());
    }
    out
}

/// Reads a locale file: its YAML document, then the items of the document.
pub fn read_locale_file(bytes: &[u8]) -> (res: Result<Vec<FileItem>, YamlError>)
    ensures
        match spec_yaml(bytes@) {
            Ok(doc) => res matches Ok(items) && items_view(items@) == spec_file_items(doc),
            Err(kind) => res matches Err(e) && e.kind == kind,
        },
{
    match parse_yaml(bytes) {
        Ok(doc) => Ok(entries_of_document(&doc)),
        Err(e) => Err(e),
    }
}


// ---------------------------------------------------------------------------
// The entries of a locale, gathered over its files.
// ---------------------------------------------------------------------------

/// The rules and sections of a locale, each a name with its mapping, in the
/// order in which their names first came.
#[derive(Debug)]
pub struct LocaleEntries {
    pub rules: Vec<(String, YamlNode)>,
    pub sections: Vec<(String, YamlNode)>,
}

pub struct EntriesV {
    pub rules: Seq<(Seq<char>, YamlV)>,
    pub sections: Seq<(Seq<char>, YamlV)>,
}

pub open spec fn named_view(s: Seq<(String, YamlNode)>) -> Seq<(Seq<char>, YamlV)> {
    s.map_values(|e: (String, YamlNode)| (e.0@, e.1@))
}

impl View for LocaleEntries {
    type V = EntriesV;

    open spec fn view(&self) -> EntriesV {
        EntriesV { rules: named_view(self.rules@), sections: named_view(self.sections@) }
    }
}

impl LocaleEntries {
    /// A locale without rules or sections.
    pub fn new() -> (res: LocaleEntries)
        ensures
            res@.rules == Seq::<(Seq<char>, YamlV)>::empty(),
            res@.sections == Seq::<(Seq<char>, YamlV)>::empty(),
    {
        let res = LocaleEntries { rules: Vec::new(), sections: Vec::new() };
        assert(res@.rules =~= Seq::<(Seq<char>, YamlV)>::empty());
        assert(res@.sections =~= Seq::<(Seq<char>, YamlV)>::empty());
        res
    }
}

/// What adding the items of a file tells: the parts of the file that were
/// skipped, and the names that were there already (the new value replaces
/// the old one).
#[derive(Debug, Clone, PartialEq, Eq)]
pub enum Notice {
    InvalidRules,
    InvalidRule,
    InvalidSections,
    InvalidSection,
    DuplicateRule(String),
    DuplicateSection(String),
}

pub enum NoticeV {
    InvalidRules,
    InvalidRule,
    InvalidSections,
    InvalidSection,
    DuplicateRule(Seq<char>),
    DuplicateSection(Seq<char>),
}

impl View for Notice {
    type V = NoticeV;

    open spec fn view(&self) -> NoticeV {
        match self {
            Notice::InvalidRules => NoticeV::InvalidRules,
            Notice::InvalidRule => NoticeV::InvalidRule,
            Notice::InvalidSections => NoticeV::InvalidSections,
            Notice::InvalidSection => NoticeV::InvalidSection,
            Notice::DuplicateRule(n) => NoticeV::DuplicateRule(n@),
            Notice::DuplicateSection(n) => NoticeV::DuplicateSection(n@),
        }
    }
}

pub open spec fn notices_view(s: Seq<Notice>) -> Seq<NoticeV> {
    s.map_values(|n: Notice| n@)
}

/// The index of the first entry of `v` named `n`.
pub open spec fn find_name(v: Seq<(Seq<char>, YamlV)>, n: Seq<char>) -> Option<int>
    decreases v.len(),
{
    if v.len() == 0 {
        None
    } else if v[0].0 == n {
        Some(0)
    } else {
        match find_name(v.drop_first(), n) {
            Some(i) => Some(i + 1),
            None => None,
        }
    }
}

/// Setting the value of the name `n`: the first entry of that name gets `x`,
/// or an entry is added at the end; and whether the name was there.
pub open spec fn insert_named(v: Seq<(Seq<char>, YamlV)>, n: Seq<char>, x: YamlV) -> (
    Seq<(Seq<char>, YamlV)>,
    bool,
) {
    match find_name(v, n) {
        Some(i) => (v.update(i, (n, x)), true),
        None => (v.push((n, x)), false),
    }
}

/// Adding one item: a rule or section replaces the value of its name or is
/// added; the other items only give their notice.
pub open spec fn apply_item(e: EntriesV, it: FileItemV) -> (EntriesV, Seq<NoticeV>) {
    match it {
        FileItemV::Rule(n, x) => {
            let (r, had) = insert_named(e.rules, n, x);
            (
                EntriesV { rules: r, sections: e.sections },
                if had {
                    seq![NoticeV::DuplicateRule(n)]
                } else {
                    Seq::empty()
                },
            )
        },
        FileItemV::Section(n, x) => {
            let (s, had) = insert_named(e.sections, n, x);
            (
                EntriesV { rules: e.rules, sections: s },
                if had {
                    seq![NoticeV::DuplicateSection(n)]
                } else {
                    Seq::empty()
                },
            )
        },
        FileItemV::InvalidRules => (e, seq![NoticeV::InvalidRules]),
        FileItemV::InvalidRule => (e, seq![NoticeV::InvalidRule]),
        FileItemV::InvalidSections => (e, seq![NoticeV::InvalidSections]),
        FileItemV::InvalidSection => (e, seq![NoticeV::InvalidSection]),
    }
}

/// Adding the items one after another, last value wins; the notices in order.
pub open spec fn apply_items(e: EntriesV, items: Seq<FileItemV>) -> (EntriesV, Seq<NoticeV>)
    decreases items.len(),
{
    if items.len() == 0 {
        (e, Seq::empty())
    } else {
        let (e1, n1) = apply_items(e, items.drop_last());
        let (e2, n2) = apply_item(e1, items.last());
        (e2, n1 + n2)
    }
}

proof fn lemma_find_name(v: Seq<(Seq<char>, YamlV)>, n: Seq<char>)
    ensures
        find_name(v, n) matches Some(i) ==> 0 <= i < v.len() && v[i].0 == n && forall|j: int|
            0 <= j < i ==> (#[trigger] v[j]).0 != n,
        find_name(v, n) is None ==> forall|j: int| 0 <= j < v.len() ==> (#[trigger] v[j]).0 != n,
    decreases v.len(),
{
    if v.len() > 0 {
        lemma_find_name(v.drop_first(), n);
        assert forall|j: int| 0 < j < v.len() implies #[trigger] v[j] == v.drop_first()[j - 1] by {}
    }
}

/// What `insert_replacing` does, read over the views of the entries.
proof fn lemma_insert_view(
    old_s: Seq<(String, YamlNode)>,
    new_s: Seq<(String, YamlNode)>,
    name: String,
    value: YamlNode,
    had: bool,
)
    requires
        had == has_name(old_s, name@),
        had ==> exists|i: int|
            0 <= i < old_s.len() && (#[trigger] old_s[i]).0@ == name@ && (forall|j: int|
                0 <= j < i ==> (#[trigger] old_s[j]).0@ != name@) && new_s == old_s.update(
                i,
                (name, value),
            ),
        !had ==> new_s == old_s.push((name, value)),
    ensures
        insert_named(named_view(old_s), name@, value@) == (named_view(new_s), had),
{
    let v = named_view(old_s);
    lemma_find_name(v, name@);
    if had {
        let i = choose|i: int|
            0 <= i < old_s.len() && (#[trigger] old_s[i]).0@ == name@ && (forall|j: int|
                0 <= j < i ==> (#[trigger] old_s[j]).0@ != name@) && new_s == old_s.update(
                i,
                (name, value),
            );
        assert(v[i].0 == name@);
        match find_name(v, name@) {
            Some(f) => {
                if f < i {
                    assert(old_s[f].0@ != name@);
                }
                if f > i {
                    assert(v[i].0 != name@);
                }
            },
            None => {
                assert(v[i].0 != name@);
            },
        }
        assert(named_view(new_s) =~= v.update(i, (name@, value@)));
    } else {
        match find_name(v, name@) {
            Some(f) => {
                assert(old_s[f].0@ == name@);
                assert(has_name(old_s, name@));
            },
            None => {},
        }
        assert(named_view(new_s) =~= v.push((name@, value@)));
    }
}

/// The value of the first entry named `n`.
pub open spec fn value_named(v: Seq<(Seq<char>, YamlV)>, n: Seq<char>) -> Option<YamlV>
    decreases v.len(),
{
    if v.len() == 0 {
        None
    } else if v[0].0 == n {
        Some(v[0].1)
    } else {
        value_named(v.drop_first(), n)
    }
}

/// The value of the last rule named `n` among the items.
pub open spec fn last_rule(items: Seq<FileItemV>, n: Seq<char>) -> Option<YamlV>
    decreases items.len(),
{
    if items.len() == 0 {
        None
    } else {
        match items.last() {
            FileItemV::Rule(m, x) => if m == n {
                Some(x)
            } else {
                last_rule(items.drop_last(), n)
            },
            _ => last_rule(items.drop_last(), n),
        }
    }
}

/// The value of the last section named `n` among the items.
pub open spec fn last_section(items: Seq<FileItemV>, n: Seq<char>) -> Option<YamlV>
    decreases items.len(),
{
    if items.len() == 0 {
        None
    } else {
        match items.last() {
            FileItemV::Section(m, x) => if m == n {
                Some(x)
            } else {
                last_section(items.drop_last(), n)
            },
            _ => last_section(items.drop_last(), n),
        }
    }
}

proof fn lemma_value_absent(v: Seq<(Seq<char>, YamlV)>, n: Seq<char>)
    requires
        forall|j: int| 0 <= j < v.len() ==> (#[trigger] v[j]).0 != n,
    ensures
        value_named(v, n) is None,
    decreases v.len(),
{
    if v.len() > 0 {
        assert(v[0].0 != n);
        assert forall|j: int| 0 <= j < v.drop_first().len() implies (#[trigger] v.drop_first()[j]).0 != n by {
            assert(v.drop_first()[j] == v[j + 1]);
        }
        lemma_value_absent(v.drop_first(), n);
    }
}

proof fn lemma_value_push(v: Seq<(Seq<char>, YamlV)>, e: (Seq<char>, YamlV), n: Seq<char>)
    ensures
        value_named(v.push(e), n) == match value_named(v, n) {
            Some(y) => Some(y),
            None => if e.0 == n {
                Some(e.1)
            } else {
                None
            },
        },
    decreases v.len(),
{
    if v.len() == 0 {
        assert(v.push(e)[0] == e);
        assert(v.push(e).drop_first() =~= Seq::<(Seq<char>, YamlV)>::empty());
    } else {
        assert(v.push(e)[0] == v[0]);
        assert(v.push(e).drop_first() =~= v.drop_first().push(e));
        lemma_value_push(v.drop_first(), e, n);
    }
}

proof fn lemma_value_update(v: Seq<(Seq<char>, YamlV)>, i: int, m: Seq<char>, x: YamlV, n: Seq<char>)
    requires
        0 <= i < v.len(),
        v[i].0 == m,
        forall|j: int| 0 <= j < i ==> (#[trigger] v[j]).0 != m,
    ensures
        value_named(v.update(i, (m, x)), n) == if n == m {
            Some(x)
        } else {
            value_named(v, n)
        },
    decreases i,
{
    let u = v.update(i, (m, x));
    if i == 0 {
        assert(u[0] == (m, x));
        assert(u.drop_first() =~= v.drop_first());
    } else {
        assert(u[0] == v[0]);
        assert(v[0].0 != m);
        assert(u.drop_first() =~= v.drop_first().update(i - 1, (m, x)));
        assert forall|j: int| 0 <= j < i - 1 implies (#[trigger] v.drop_first()[j]).0 != m by {
            assert(v.drop_first()[j] == v[j + 1]);
        }
        lemma_value_update(v.drop_first(), i - 1, m, x, n);
    }
}

/// Setting the value of a name: looking that name up gives the new value, and
/// every other name keeps its value.
pub proof fn lemma_insert_named_value(v: Seq<(Seq<char>, YamlV)>, m: Seq<char>, x: YamlV, n: Seq<char>)
    ensures
        value_named(insert_named(v, m, x).0, n) == if n == m {
            Some(x)
        } else {
            value_named(v, n)
        },
{
    lemma_find_name(v, m);
    match find_name(v, m) {
        Some(i) => {
            lemma_value_update(v, i, m, x, n);
        },
        None => {
            lemma_value_push(v, (m, x), n);
            lemma_value_absent(v, m);
        },
    }
}

/// After a file's items are added, a rule or section name that the items
/// define has the value of the last item of that name, and any other name
/// keeps its value.
pub proof fn lemma_add_items_last_wins(e: EntriesV, items: Seq<FileItemV>, n: Seq<char>)
    ensures
        value_named(apply_items(e, items).0.rules, n) == match last_rule(items, n) {
            Some(x) => Some(x),
            None => value_named(e.rules, n),
        },
        value_named(apply_items(e, items).0.sections, n) == match last_section(items, n) {
            Some(x) => Some(x),
            None => value_named(e.sections, n),
        },
    decreases items.len(),
{
    if items.len() > 0 {
        lemma_add_items_last_wins(e, items.drop_last(), n);
        let e1 = apply_items(e, items.drop_last()).0;
        match items.last() {
            FileItemV::Rule(m, x) => {
                lemma_insert_named_value(e1.rules, m, x, n);
            },
            FileItemV::Section(m, x) => {
                lemma_insert_named_value(e1.sections, m, x, n);
            },
            _ => {},
        }
    }
}

/// Adds the items of a file to the entries of its locale, one after another:
/// a rule or section sets the value of its name, the last one winning, and
/// the notices tell the replaced names and the parts of the file skipped.
pub fn add_file_entries(acc: &mut LocaleEntries, items: Vec<FileItem>) -> (notices: Vec<Notice>)
    ensures
        (final(acc)@, notices_view(notices@)) == apply_items(old(acc)@, items_view(items@)),
        forall|n: Seq<char>|
            #[trigger] value_named(final(acc)@.rules, n) == match last_rule(items_view(items@), n) {
                Some(x) => Some(x),
                None => value_named(old(acc)@.rules, n),
            },
        forall|n: Seq<char>|
            #[trigger] value_named(final(acc)@.sections, n) == match last_section(items_view(items@), n) {
                Some(x) => Some(x),
                None => value_named(old(acc)@.sections, n),
            },
{
    let ghost start = acc@;
    let ghost inc = items_view(items@);
    let ghost raw = items@;
    let n = items.len();
    let mut rest = reversed(items);
    let mut notices: Vec<Notice> = Vec::new();
    let mut k: usize = 0;
    assert(inc.take(0) =~= Seq::<FileItemV>::empty());
    assert(notices_view(notices@) =~= Seq::<NoticeV>::empty());
    assert(raw.subrange(0, n as int).reverse() =~= raw.reverse());
    while rest.len() > 0
        invariant
            n == raw.len(),
            inc == items_view(raw),
            k + rest@.len() == n,
            rest@ == raw.subrange(k as int, n as int).reverse(),
            (acc@, notices_view(notices@)) == apply_items(start, inc.take(k as int)),
        decreases rest.len(),
    {
        let item = rest.pop().unwrap();
        assert(item == raw[k as int]);
        assert(rest@ =~= raw.subrange(k + 1, n as int).reverse());
        assert(inc.take(k + 1).drop_last() =~= inc.take(k as int));
        assert(inc.take(k + 1).last() == item@);
        let ghost before_acc = acc@;
        let ghost before_notices = notices_view(notices@);
        match item {
            FileItem::Rule(name, x) => {
                let dup = name.clone();
                let ghost old_rules = acc.rules@;
                let ghost nv = name;
                let ghost xv = x;
                let had = insert_replacing(&mut acc.rules, name, x);
                proof {
                    lemma_insert_view(old_rules, acc.rules@, nv, xv, had);
                }
                if had {
                    notices.push(Notice::DuplicateRule(dup));
                    assert(notices_view(notices@) =~= before_notices + seq![NoticeV::DuplicateRule(nv@)]);
                } else {
                    assert(notices_view(notices@) =~= before_notices + Seq::<NoticeV>::empty());
                }
            },
            FileItem::Section(name, x) => {
                let dup = name.clone();
                let ghost old_sections = acc.sections@;
                let ghost nv = name;
                let ghost xv = x;
                let had = insert_replacing(&mut acc.sections, name, x);
                proof {
                    lemma_insert_view(old_sections, acc.sections@, nv, xv, had);
                }
                if had {
                    notices.push(Notice::DuplicateSection(dup));
                    assert(notices_view(notices@) =~= before_notices + seq![NoticeV::DuplicateSection(nv@)]);
                } else {
                    assert(notices_view(notices@) =~= before_notices + Seq::<NoticeV>::empty());
                }
            },
            FileItem::InvalidRules => {
                notices.push(Notice::InvalidRules);
                assert(notices_view(notices@) =~= before_notices + seq![NoticeV::InvalidRules]);
            },
            FileItem::InvalidRule => {
                notices.push(Notice::InvalidRule);
                assert(notices_view(notices@) =~= before_notices + seq![NoticeV::InvalidRule]);
            },
            FileItem::InvalidSections => {
                notices.push(Notice::InvalidSections);
                assert(notices_view(notices@) =~= before_notices + seq![NoticeV::InvalidSections]);
            },
            FileItem::InvalidSection => {
                notices.push(Notice::InvalidSection);
                assert(notices_view(notices@) =~= before_notices + seq![NoticeV::InvalidSection]);
            },
        }
        k = k + 1;
    }
    assert(inc.take(n as int) =~= inc);
    proof {
        assert forall|nm: Seq<char>|
            #[trigger] value_named(acc@.rules, nm) == match last_rule(inc, nm) {
                Some(x) => Some(x),
                None => value_named(start.rules, nm),
            } by {
            lemma_add_items_last_wins(start, inc, nm);
        }
        assert forall|nm: Seq<char>|
            #[trigger] value_named(acc@.sections, nm) == match last_section(inc, nm) {
                Some(x) => Some(x),
                None => value_named(start.sections, nm),
            } by {
            lemma_add_items_last_wins(start, inc, nm);
        }
    }
    notices
}

// ---------------------------------------------------------------------------
// The section keys of a locale, for the check of missing sections and keys.
// ---------------------------------------------------------------------------

/// The key names of a section's mapping, a key that is not a string giving
/// the empty name.
pub open spec fn section_key_names(x: YamlV) -> Seq<Seq<char>> {
    match as_mapping_v(x) {
        Some(m) => m.map_values(|p: (YamlV, YamlV)| key_name(p)),
        None => Seq::empty(),
    }
}

/// The name of a pair's key: the string it is, or the empty name.
pub open spec fn key_name(p: (YamlV, YamlV)) -> Seq<char> {
    match as_str_v(p.0) {
        Some(s) => s,
        None => Seq::<char>::empty(),
    }
}

/// The names of the keys of a section's mapping that are plain strings: the
/// ones that a lookup by name finds.
pub open spec fn plain_key_names(x: YamlV) -> Seq<Seq<char>> {
    match as_mapping_v(x) {
        Some(m) => plain_names(m),
        None => Seq::empty(),
    }
}

pub open spec fn plain_names(m: Seq<(YamlV, YamlV)>) -> Seq<Seq<char>>
    decreases m.len(),
{
    if m.len() == 0 {
        Seq::empty()
    } else {
        plain_names(m.drop_last()) + match m.last().0 {
            YamlV::Str(s) => seq![s],
            _ => Seq::empty(),
        }
    }
}

fn plain_key_names_of(x: &YamlNode) -> (res: Vec<String>)
    ensures
        res@.map_values(|s: String| s@) == plain_key_names(x@),
{
    let mut out: Vec<String> = Vec::new();
    match node_mapping(x) {
        None => {
            assert(out@.map_values(|s: String| s@) =~= Seq::<Seq<char>>::empty());
            out
        },
        Some(m) => {
            let ghost pv = pairs_view(m@);
            proof {
                lemma_pairs_view(m@);
            }
            let mut i: usize = 0;
            assert(pv.take(0) =~= Seq::<(YamlV, YamlV)>::empty());
            assert(out@.map_values(|s: String| s@) =~= Seq::<Seq<char>>::empty());
            while i < m.len()
                invariant
                    i <= m@.len(),
                    pv == pairs_view(m@),
                    pv.len() == m@.len(),
                    forall|j: int| 0 <= j < m@.len() ==> #[trigger] pv[j] == (m@[j].0@, m@[j].1@),
                    out@.map_values(|s: String| s@) == plain_names(pv.take(i as int)),
                decreases m.len() - i,
            {
                let ghost before = out@;
                assert(pv.take(i + 1).drop_last() =~= pv.take(i as int));
                assert(pv.take(i + 1).last() == pv[i as int]);
                match &m[i].0 {
                    YamlNode::Str(s) => {
                        out.push(s.clone());
                        assert(out@.map_values(|s: String| s@) =~= before.map_values(|s: String| s@)
                            + seq![s@]);
                    },
                    _ => {
                        assert(out@.map_values(|s: String| s@) =~= before.map_values(|s: String| s@)
                            + Seq::<Seq<char>>::empty());
                    },
                }
                i = i + 1;
            }
            assert(pv.take(m@.len() as int) =~= pv);
            out
        },
    }
}

fn key_names(x: &YamlNode) -> (res: Vec<String>)
    ensures
        res@.map_values(|s: String| s@) == section_key_names(x@),
{
    let mut out: Vec<String> = Vec::new();
    match node_mapping(x) {
        None => {
            assert(out@.map_values(|s: String| s@) =~= Seq::<Seq<char>>::empty());
            out
        },
        Some(m) => {
            let ghost pv = pairs_view(m@);
            proof {
                lemma_pairs_view(m@);
            }
            let mut i: usize = 0;
            while i < m.len()
                invariant
                    i <= m@.len(),
                    pv == pairs_view(m@),
                    pv.len() == m@.len(),
                    forall|j: int| 0 <= j < m@.len() ==> #[trigger] pv[j] == (m@[j].0@, m@[j].1@),
                    out@.len() == i,
                    forall|j: int| 0 <= j < i ==> (#[trigger] out@[j])@ == key_name(pv[j]),
                decreases m.len() - i,
            {
                let name = match node_str(&m[i].0) {
                    Some(s) => s,
                    None => String::new(),
                };
                out.push(name);
                i = i + 1;
            }
            assert(out@.map_values(|s: String| s@) =~= pv.map_values(|p: (YamlV, YamlV)| key_name(p)));
            out
        },
    }
}

/// The sections of a locale with the names of their keys, and the names
/// that a lookup finds.
pub fn locale_sections(name: &String, entries: &LocaleEntries) -> (res: LocaleSections)
    ensures
        res.name@ == name@,
        res.sections@.len() == entries.sections@.len(),
        forall|i: int|
            0 <= i < entries.sections@.len() ==> (#[trigger] res.sections@[i]).name@
                == entries.sections@[i].0@ && res.sections@[i].keys@.map_values(|s: String| s@)
                == section_key_names(entries.sections@[i].1@)
                && res.sections@[i].plain_keys@.map_values(|s: String| s@) == plain_key_names(
                entries.sections@[i].1@,
            ),
{
    let mut sections: Vec<SectionKeys> = Vec::new();
    let mut i: usize = 0;
    while i < entries.sections.len()
        invariant
            i <= entries.sections@.len(),
            sections@.len() == i,
            forall|j: int|
                0 <= j < i ==> (#[trigger] sections@[j]).name@ == entries.sections@[j].0@
                    && sections@[j].keys@.map_values(|s: String| s@) == section_key_names(
                    entries.sections@[j].1@,
                ) && sections@[j].plain_keys@.map_values(|s: String| s@) == plain_key_names(
                    entries.sections@[j].1@,
                ),
        decreases entries.sections.len() - i,
    {
        let keys = key_names(&entries.sections[i].1);
        let plain_keys = plain_key_names_of(&entries.sections[i].1);
        sections.push(SectionKeys { name: entries.sections[i].0.clone(), keys, plain_keys });
        i = i + 1;
    }
    LocaleSections { name: name.clone(), sections }
}

} // verus!
