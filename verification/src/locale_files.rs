use crate::text::{chars_of, string_of_range};
use vstd::prelude::*;

verus! {

/// `d` is the index of the last dot of a file name, and that dot is not its
/// first character.
pub open spec fn is_last_dot(name: Seq<char>, d: int) -> bool {
    &&& 0 < d < name.len()
    &&& name[d] == '.'
    &&& forall|e: int| d < e < name.len() ==> #[trigger] name[e] != '.'
}

/// `d` is the index of the first dot of a file name after its first character.
pub open spec fn is_first_dot(name: Seq<char>, d: int) -> bool {
    &&& 0 < d < name.len()
    &&& name[d] == '.'
    &&& forall|e: int| 0 < e < d ==> #[trigger] name[e] != '.'
}

/// The extension of a file name, as a path reads it: what follows its last
/// dot, where there is a dot that is not the first character.
pub open spec fn file_extension(name: Seq<char>) -> Option<Seq<char>> {
    if exists|d: int| is_last_dot(name, d) {
        Some(name.skip((choose|d: int| is_last_dot(name, d)) + 1))
    } else {
        None
    }
}

/// The prefix of a file name: what comes before its first dot that is not the
/// first character, or the whole name.
pub open spec fn file_prefix(name: Seq<char>) -> Seq<char> {
    if exists|d: int| is_first_dot(name, d) {
        name.take(choose|d: int| is_first_dot(name, d))
    } else {
        name
    }
}

/// The locale that a file of the locales directory holds: the prefix of its
/// name, for a `.yml` or `.yaml` file with a prefix that is not empty.
pub open spec fn locale_of_file_name(name: Seq<char>) -> Option<Seq<char>> {
    if (file_extension(name) == Some(seq!['y', 'm', 'l']) || file_extension(name) == Some(
        seq!['y', 'a', 'm', 'l'],
    )) && file_prefix(name).len() > 0 {
        Some(file_prefix(name))
    } else {
        None
    }
}

/// A name without dots followed by `.yml` or `.yaml` is a file of the locale
/// of that name.
pub proof fn lemma_locale_file_name(name: Seq<char>)
    requires
        name.len() > 0,
        forall|i: int| 0 <= i < name.len() ==> #[trigger] name[i] != '.',
    ensures
        locale_of_file_name(name + seq!['.', 'y', 'm', 'l']) == Some(name),
        locale_of_file_name(name + seq!['.', 'y', 'a', 'm', 'l']) == Some(name),
{
    let d = name.len() as int;
    let f1 = name + seq!['.', 'y', 'm', 'l'];
    let f2 = name + seq!['.', 'y', 'a', 'm', 'l'];
    assert forall|e: int| 0 <= e < d implies #[trigger] f1[e] != '.' && f2[e] != '.' by {
        assert(f1[e] == name[e]);
        assert(f2[e] == name[e]);
    }
    assert(is_last_dot(f1, d));
    assert(is_first_dot(f1, d));
    assert(is_last_dot(f2, d));
    assert(is_first_dot(f2, d));
    assert forall|e: int| is_last_dot(f1, e) implies e == d by {
        if e < d {
            assert(f1[e] != '.');
        } else if e > d {
            assert(f1[d] == '.');
        }
    }
    assert forall|e: int| is_first_dot(f1, e) implies e == d by {
        if e < d {
            assert(f1[e] != '.');
        } else if e > d {
            assert(f1[d] == '.');
        }
    }
    assert forall|e: int| is_last_dot(f2, e) implies e == d by {
        if e < d {
            assert(f2[e] != '.');
        } else if e > d {
            assert(f2[d] == '.');
        }
    }
    assert forall|e: int| is_first_dot(f2, e) implies e == d by {
        if e < d {
            assert(f2[e] != '.');
        } else if e > d {
            assert(f2[d] == '.');
        }
    }
    assert(f1.skip(d + 1) =~= seq!['y', 'm', 'l']);
    assert(f2.skip(d + 1) =~= seq!['y', 'a', 'm', 'l']);
    assert(f1.take(d) =~= name);
    assert(f2.take(d) =~= name);
}

/// Whether `cs[from..]` is `word`.
fn tail_is(cs: &Vec<char>, from: usize, word: &Vec<char>) -> (res: bool)
    requires
        from <= cs.len(),
    ensures
        res == (cs@.skip(from as int) == word@),
{
    if cs.len() - from != word.len() {
        assert(cs@.skip(from as int).len() != word@.len());
        return false;
    }
    let mut k: usize = 0;
    while k < word.len()
        invariant
            from <= cs.len(),
            cs.len() - from == word.len(),
            k <= word.len(),
            forall|e: int| 0 <= e < k ==> cs@[from + e] == #[trigger] word@[e],
        decreases word.len() - k,
    {
        if cs[from + k] != word[k] {
            assert(cs@.skip(from as int)[k as int] != word@[k as int]);
            return false;
        }
        k = k + 1;
    }
    assert(cs@.skip(from as int) =~= word@);
    true
}

/// The locale that the file named `name` holds, if it is a locale file: the
/// prefix of its name where its extension is `yml` or `yaml`.
pub fn locale_of_file(name: &str) -> (res: Option<String>)
    ensures
        match locale_of_file_name(name@) {
            Some(p) => res matches Some(s) && s@ == p,
            None => res is None,
        },
{
    let cs = chars_of(name);
    let n = cs.len();
    let mut first: Option<usize> = None;
    let mut last: Option<usize> = None;
    let mut i: usize = 1;
    while i < n
        invariant
            cs@ == name@,
            n == cs.len(),
            1 <= i <= n || (n == 0 && i == 1),
            match first {
                Some(d) => is_first_dot(cs@, d as int) && d < i,
                None => forall|e: int| 0 < e < i && e < n ==> #[trigger] cs@[e] != '.',
            },
            match last {
                Some(d) => 0 < d < i && d < n && cs@[d as int] == '.' && forall|e: int|
                    d < e < i && e < n ==> #[trigger] cs@[e] != '.',
                None => forall|e: int| 0 < e < i && e < n ==> #[trigger] cs@[e] != '.',
            },
        decreases n - i,
    {
        if cs[i] == '.' {
            if first.is_none() {
                first = Some(i);
            }
            last = Some(i);
        }
        i = i + 1;
    }
    let ghost name_v = cs@;
    proof {
        match last {
            Some(d) => {
                assert(is_last_dot(name_v, d as int));
                assert forall|e: int| is_last_dot(name_v, e) implies e == d by {
                    if e < d {
                        assert(name_v[d as int] == '.');
                    } else if e > d {
                        assert(name_v[e] == '.');
                    }
                }
            },
            None => {
                assert forall|e: int| !is_last_dot(name_v, e) by {
                    if 0 < e < name_v.len() {
                        assert(name_v[e] != '.');
                    }
                }
            },
        }
        match first {
            Some(d) => {
                assert forall|e: int| is_first_dot(name_v, e) implies e == d by {
                    if e < d {
                        assert(name_v[e] == '.');
                    } else if e > d {
                        assert(name_v[d as int] == '.');
                    }
                }
            },
            None => {
                assert forall|e: int| !is_first_dot(name_v, e) by {
                    if 0 < e < name_v.len() {
                        assert(name_v[e] != '.');
                    }
                }
            },
        }
    }
    let d = match last {
        Some(d) => d,
        None => {
            return None;
        },
    };
    let yml: Vec<char> = vec!['y', 'm', 'l'];
    let yaml: Vec<char> = vec!['y', 'a', 'm', 'l'];
    let is_yml = tail_is(&cs, d + 1, &yml);
    let is_yaml = tail_is(&cs, d + 1, &yaml);
    assert(yml@ == seq!['y', 'm', 'l']);
    assert(yaml@ == seq!['y', 'a', 'm', 'l']);
    if !is_yml && !is_yaml {
        return None;
    }
    let end = match first {
        Some(f) => f,
        None => n,
    };
    assert(cs@.subrange(0, n as int) =~= cs@);
    if end == 0 {
        return None;
    }
    Some(string_of_range(&cs, 0, end))
}

} // verus!
