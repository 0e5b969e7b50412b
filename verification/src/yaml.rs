use vstd::prelude::*;

verus! {

/// A YAML value as the locale files are read: mappings in document order,
/// strings, tagged values (the tag itself dropped), and everything else.
#[derive(Debug)]
pub enum YamlNode {
    Mapping(Vec<(YamlNode, YamlNode)>),
    Str(String),
    Tagged(Box<YamlNode>),
    Other,
}

/// The mathematical value of a `YamlNode`.
pub enum YamlV {
    Mapping(Seq<(YamlV, YamlV)>),
    Str(Seq<char>),
    Tagged(Box<YamlV>),
    Other,
}

pub open spec fn node_view(n: YamlNode) -> YamlV
    decreases n,
{
    match n {
        YamlNode::Mapping(ps) => YamlV::Mapping(pairs_view(ps@)),
        YamlNode::Str(s) => YamlV::Str(s@),
        YamlNode::Tagged(b) => YamlV::Tagged(Box::new(node_view(*b))),
        YamlNode::Other => YamlV::Other,
    }
}

pub open spec fn pairs_view(ps: Seq<(YamlNode, YamlNode)>) -> Seq<(YamlV, YamlV)>
    decreases ps,
{
    if ps.len() == 0 {
        Seq::empty()
    } else {
        pairs_view(ps.drop_last()).push((node_view(ps.last().0), node_view(ps.last().1)))
    }
}

impl View for YamlNode {
    type V = YamlV;

    open spec fn view(&self) -> YamlV {
        node_view(*self)
    }
}

/// Which stage of reading a YAML document failed.
#[derive(Debug, Clone, Copy, PartialEq, Eq, Structural)]
pub enum YamlErrorKind {
    /// The bytes are not a YAML document.
    Syntax,
    /// A merge key (`<<`) of the document cannot be applied.
    Merge,
}

#[verifier::external_type_specification]
#[verifier::external_body]
pub struct ExYamlError(serde_yaml::Error);

#[verifier::external_type_specification]
#[verifier::external_body]
pub struct ExYamlValue(serde_yaml::Value);

/// An error of reading a YAML document, with the YAML library's own error.
#[derive(Debug)]
pub struct YamlError {
    pub kind: YamlErrorKind,
    pub source: serde_yaml::Error,
}

/// What `serde_yaml::from_slice` into `serde_yaml::Value`, followed by
/// `Value::apply_merge`, gives for a document's bytes, converted to a
/// `YamlNode`: a function of the bytes alone.
pub uninterp spec fn spec_yaml(bytes: Seq<u8>) -> Result<YamlV, YamlErrorKind>;

/// Calls `serde_yaml::from_slice` and then `Value::apply_merge` on the result,
/// and converts the value to a `YamlNode`. The contract claims only that the
/// outcome is `spec_yaml` of the bytes: which bytes parse, and to what, is the
/// YAML library's and is not stated here.
#[verifier::external_body]
pub(crate) fn parse_yaml(bytes: &[u8]) -> (res: Result<YamlNode, YamlError>)
    ensures
        match res {
            Ok(n) => spec_yaml(bytes@) == Ok::<YamlV, YamlErrorKind>(n@),
            Err(e) => spec_yaml(bytes@) == Err::<YamlV, YamlErrorKind>(e.kind),
        },
{
    match serde_yaml::from_slice::<serde_yaml::Value>(bytes) {
        Err(e) => Err(YamlError { kind: YamlErrorKind::Syntax, source: e }),
        Ok(mut value) => match value.apply_merge() {
            Err(e) => Err(YamlError { kind: YamlErrorKind::Merge, source: e }),
            Ok(()) => Ok(yaml_node(value)),
        },
    }
}

/// Converts a `serde_yaml::Value` one for one: a mapping pair by pair in its
/// order, a string, a tagged value without its tag, and any other value to
/// `Other`. Nothing is claimed of it on its own: it is the conversion step of
/// `parse_yaml`, whose named result covers it.
#[verifier::external_body]
fn yaml_node(value: serde_yaml::Value) -> YamlNode {
    match value {
        serde_yaml::Value::Mapping(m) => {
            let mut pairs = Vec::new();
            for (k, v) in m {
                pairs.push((yaml_node(k), yaml_node(v)));
            }
            YamlNode::Mapping(pairs)
        },
        serde_yaml::Value::String(s) => YamlNode::Str(s),
        serde_yaml::Value::Tagged(t) => YamlNode::Tagged(Box::new(yaml_node(t.value))),
        _ => YamlNode::Other,
    }
}

// ---------------------------------------------------------------------------
// Reading values as the locale files are read.
// ---------------------------------------------------------------------------

/// The value inside any tags.
pub open spec fn untag(n: YamlV) -> YamlV
    decreases n,
{
    match n {
        YamlV::Tagged(b) => untag(*b),
        _ => n,
    }
}

/// The string that a value is, inside any tags.
pub open spec fn as_str_v(n: YamlV) -> Option<Seq<char>> {
    match untag(n) {
        YamlV::Str(s) => Some(s),
        _ => None,
    }
}

/// The pairs of the mapping that a value is, inside any tags.
pub open spec fn as_mapping_v(n: YamlV) -> Option<Seq<(YamlV, YamlV)>> {
    match untag(n) {
        YamlV::Mapping(m) => Some(m),
        _ => None,
    }
}

/// The value of the first pair of `m` whose key is the plain string `k`.
pub open spec fn key_value(m: Seq<(YamlV, YamlV)>, k: Seq<char>) -> Option<YamlV>
    decreases m.len(),
{
    if m.len() == 0 {
        None
    } else if m[0].0 == YamlV::Str(k) {
        Some(m[0].1)
    } else {
        key_value(m.drop_first(), k)
    }
}

/// The value under the key `k` of the mapping that `doc` is.
pub open spec fn doc_get(doc: YamlV, k: Seq<char>) -> Option<YamlV> {
    match as_mapping_v(doc) {
        Some(m) => key_value(m, k),
        None => None,
    }
}

pub proof fn lemma_pairs_view(ps: Seq<(YamlNode, YamlNode)>)
    ensures
        pairs_view(ps).len() == ps.len(),
        forall|i: int| 0 <= i < ps.len() ==> #[trigger] pairs_view(ps)[i] == (ps[i].0@, ps[i].1@),
    decreases ps.len(),
{
    if ps.len() > 0 {
        lemma_pairs_view(ps.drop_last());
    }
}

/// A copy of a value.
pub fn copy_node(n: &YamlNode) -> (res: YamlNode)
    ensures
        res@ == n@,
    decreases n,
{
    match n {
        YamlNode::Mapping(ps) => {
            let mut out: Vec<(YamlNode, YamlNode)> = Vec::new();
            let mut i: usize = 0;
            proof {
                lemma_pairs_view(ps@);
            }
            while i < ps.len()
                invariant
                    i <= ps@.len(),
                    pairs_view(out@) == pairs_view(ps@.take(i as int)),
                    pairs_view(ps@).len() == ps@.len(),
                    *n == YamlNode::Mapping(*ps),
                decreases ps.len() - i,
            {
                proof {
                    assert(decreases_to!(*n => (*n)->Mapping_0));
                    assert(decreases_to!(*ps => ps@));
                    assert(decreases_to!(ps@ => ps@[i as int]));
                    assert(decreases_to!(ps@[i as int] => ps@[i as int].0));
                    assert(decreases_to!(ps@[i as int] => ps@[i as int].1));
                }
                let k = copy_node(&ps[i].0);
                let v = copy_node(&ps[i].1);
                let ghost before = out@;
                out.push((k, v));
                proof {
                    assert(out@.drop_last() =~= before);
                    assert(ps@.take(i + 1).drop_last() =~= ps@.take(i as int));
                }
                i = i + 1;
            }
            assert(ps@.take(ps@.len() as int) =~= ps@);
            YamlNode::Mapping(out)
        },
        YamlNode::Str(s) => YamlNode::Str(s.clone()),
        YamlNode::Tagged(b) => YamlNode::Tagged(Box::new(copy_node(b))),
        YamlNode::Other => YamlNode::Other,
    }
}

/// The value inside any tags.
pub fn untag_node(n: &YamlNode) -> (res: &YamlNode)
    ensures
        res@ == untag(n@),
    decreases n,
{
    match n {
        YamlNode::Tagged(b) => untag_node(b),
        _ => n,
    }
}

/// The string that a value is, inside any tags.
pub fn node_str(n: &YamlNode) -> (res: Option<String>)
    ensures
        match as_str_v(n@) {
            Some(s) => res matches Some(r) && r@ == s,
            None => res is None,
        },
{
    match untag_node(n) {
        YamlNode::Str(s) => Some(s.clone()),
        _ => None,
    }
}

/// The pairs of the mapping that a value is, inside any tags.
pub fn node_mapping(n: &YamlNode) -> (res: Option<&Vec<(YamlNode, YamlNode)>>)
    ensures
        match as_mapping_v(n@) {
            Some(m) => res matches Some(v) && pairs_view(v@) == m,
            None => res is None,
        },
{
    match untag_node(n) {
        YamlNode::Mapping(ps) => Some(ps),
        _ => None,
    }
}

/// The value of the first pair of `m` whose key is the plain string `k`.
pub fn key_value_of<'a>(m: &'a Vec<(YamlNode, YamlNode)>, k: &String) -> (res: Option<&'a YamlNode>)
    ensures
        match key_value(pairs_view(m@), k@) {
            Some(v) => res matches Some(r) && r@ == v,
            None => res is None,
        },
{
    let ghost pv = pairs_view(m@);
    proof {
        lemma_pairs_view(m@);
    }
    let mut i: usize = 0;
    assert(pv.skip(0) =~= pv);
    while i < m.len()
        invariant
            i <= m@.len(),
            pv == pairs_view(m@),
            pv.len() == m@.len(),
            forall|j: int| 0 <= j < m@.len() ==> #[trigger] pv[j] == (m@[j].0@, m@[j].1@),
            key_value(pv, k@) == key_value(pv.skip(i as int), k@),
        decreases m.len() - i,
    {
        assert(pv.skip(i as int)[0] == pv[i as int]);
        assert(pv.skip(i as int).drop_first() =~= pv.skip(i + 1));
        let is_key = match &m[i].0 {
            YamlNode::Str(s) => *s == *k,
            _ => false,
        };
        if is_key {
            return Some(&m[i].1);
        }
        i = i + 1;
    }
    None
}

} // verus!
