//! Extensions of file names and the filter that accepts them.

use vstd::prelude::*;

verus! {

/// Index of the last `.` in `s`, or -1 where there is none.
pub open spec fn last_dot(s: Seq<char>) -> int
    decreases s.len(),
{
    if s.len() == 0 {
        -1
    } else if s.last() == '.' {
        s.len() - 1
    } else {
        last_dot(s.drop_last())
    }
}

/// The extension of a file name: what follows its last `.`, where something
/// stands before that dot; otherwise, for a name that begins with `.`, what
/// follows that dot. `.` and `..` name no file and have none.
pub open spec fn ext_of(name: Seq<char>) -> Option<Seq<char>> {
    if name =~= seq!['.'] || name =~= seq!['.', '.'] {
        None
    } else if last_dot(name) > 0 {
        Some(name.subrange(last_dot(name) + 1, name.len() as int))
    } else if name.len() > 0 && name[0] == '.' {
        Some(name.subrange(1, name.len() as int))
    } else {
        None
    }
}

/// A token with at most one leading `.` removed.
pub open spec fn normalized(token: Seq<char>) -> Seq<char> {
    if token.len() > 0 && token[0] == '.' {
        token.drop_first()
    } else {
        token
    }
}

/// Whether a file name has an extension that the filter holds.
pub open spec fn name_matches(filter: Seq<Seq<char>>, name: Seq<char>) -> bool {
    match ext_of(name) {
        Some(e) => filter.contains(e),
        None => false,
    }
}

/// The filter made from a list of raw tokens.
pub open spec fn filter_of(tokens: Seq<Seq<char>>) -> Seq<Seq<char>> {
    tokens.map_values(|t: Seq<char>| normalized(t))
}

proof fn lemma_last_dot_bounds(s: Seq<char>)
    ensures
        -1 <= last_dot(s) < s.len(),
        last_dot(s) >= 0 ==> s[last_dot(s)] == '.',
        forall|k: int| last_dot(s) < k < s.len() ==> s[k] != '.',
    decreases s.len(),
{
    if s.len() > 0 && s.last() != '.' {
        let t = s.drop_last();
        lemma_last_dot_bounds(t);
        assert forall|k: int| last_dot(s) < k < s.len() implies s[k] != '.' by {
            if k < t.len() {
                assert(s[k] == t[k]);
            }
        }
    }
}

/// Strips at most one leading `.` from an extension token.
pub fn normalize_ext(token: &str) -> (r: String)
    ensures
        r@ == normalized(token@),
{
    let n = token.unicode_len();
    if n > 0 && token.get_char(0) == '.' {
        let rest = token.substring_char(1, n);
        assert(rest@ =~= token@.drop_first());
        rest.to_owned()
    } else {
        token.to_owned()
    }
}

/// The extension of a file name (see `ext_of`).
pub fn get_ext(name: &str) -> (r: Option<&str>)
    ensures
        match r {
            Some(e) => ext_of(name@) == Some(e@),
            None => ext_of(name@) is None,
        },
{
    let n = name.unicode_len();
    if n == 1 && name.get_char(0) == '.' {
        assert(name@ =~= seq!['.']);
        return None;
    }
    if n == 2 && name.get_char(0) == '.' && name.get_char(1) == '.' {
        assert(name@ =~= seq!['.', '.']);
        return None;
    }
    proof {
        lemma_last_dot_bounds(name@);
    }
    let mut i: usize = n;
    while i > 0 && name.get_char(i - 1) != '.'
        invariant
            i <= n,
            n == name@.len(),
            forall|k: int| i <= k < n ==> name@[k] != '.',
        decreases i,
    {
        i = i - 1;
    }
    proof {
        // i - 1 is the last dot, or -1 where there is none
        let s = name@;
        if i > 0 {
            assert(last_dot(s) == i - 1) by {
                if last_dot(s) != i - 1 {
                    if last_dot(s) > i - 1 {
                        assert(s[last_dot(s)] != '.');
                    } else {
                        assert(s[i - 1] != '.');
                    }
                }
            }
        } else {
            assert(last_dot(s) == -1) by {
                if last_dot(s) >= 0 {
                    assert(s[last_dot(s)] != '.');
                }
            }
        }
    }
    if i > 1 {
        Some(name.substring_char(i, n))
    } else if n > 0 && name.get_char(0) == '.' {
        Some(name.substring_char(1, n))
    } else {
        None
    }
}

/// The set of accepted extensions, each held without a leading `.`.
pub struct ExtensionFilter {
    exts: Vec<String>,
}

impl View for ExtensionFilter {
    type V = Seq<Seq<char>>;

    closed spec fn view(&self) -> Seq<Seq<char>> {
        self.exts@.map_values(|s: String| s@)
    }
}

impl ExtensionFilter {
    /// Builds the filter from raw tokens, each with an optional leading `.`.
    pub fn new(tokens: &Vec<String>) -> (r: ExtensionFilter)
        ensures
            r@ == filter_of(tokens@.map_values(|t: String| t@)),
    {
        let mut exts: Vec<String> = Vec::new();
        let mut i: usize = 0;
        while i < tokens.len()
            invariant
                i <= tokens@.len(),
                exts@.len() == i,
                forall|k: int| 0 <= k < i ==> #[trigger] exts@[k]@ == normalized(tokens@[k]@),
            decreases tokens@.len() - i,
        {
            exts.push(normalize_ext(tokens[i].as_str()));
            i = i + 1;
        }
        let r = ExtensionFilter { exts };
        assert(r@ =~= filter_of(tokens@.map_values(|t: String| t@)));
        r
    }

    /// Whether `ext` is one of the accepted extensions.
    pub fn contains(&self, ext: &str) -> (r: bool)
        ensures
            r == self@.contains(ext@),
    {
        let e = ext.to_owned();
        let mut i: usize = 0;
        while i < self.exts.len()
            invariant
                i <= self.exts@.len(),
                e@ == ext@,
                forall|k: int| 0 <= k < i ==> #[trigger] self.exts@[k]@ != ext@,
            decreases self.exts@.len() - i,
        {
            if self.exts[i] == e {
                assert(self@[i as int] == ext@);
                return true;
            }
            i = i + 1;
        }
        assert(!self@.contains(ext@)) by {
            if self@.contains(ext@) {
                let k = choose|k: int| 0 <= k < self@.len() && self@[k] == ext@;
                assert(self.exts@[k]@ == ext@);
            }
        }
        false
    }

    /// Whether the file name's extension is accepted.
    pub fn matches(&self, name: &str) -> (r: bool)
        ensures
            r == name_matches(self@, name@),
    {
        match get_ext(name) {
            Some(e) => self.contains(e),
            None => false,
        }
    }
}

/// A filter made from two lists of tokens accepts exactly the names that one
/// of the two filters made from each list alone accepts.
pub proof fn lemma_union_filter(a: Seq<Seq<char>>, b: Seq<Seq<char>>, name: Seq<char>)
    ensures
        name_matches(filter_of(a + b), name) == (name_matches(filter_of(a), name)
            || name_matches(filter_of(b), name)),
{
    let fa = filter_of(a);
    let fb = filter_of(b);
    assert(filter_of(a + b) =~= fa + fb);
    if let Some(e) = ext_of(name) {
        if (fa + fb).contains(e) {
            let k = choose|k: int| 0 <= k < (fa + fb).len() && (fa + fb)[k] == e;
            if k < fa.len() {
                assert(fa[k] == e);
            } else {
                assert(fb[k - fa.len()] == e);
            }
        }
        if fa.contains(e) {
            let k = choose|k: int| 0 <= k < fa.len() && fa[k] == e;
            assert((fa + fb)[k] == e);
        }
        if fb.contains(e) {
            let k = choose|k: int| 0 <= k < fb.len() && fb[k] == e;
            assert((fa + fb)[k + fa.len()] == e);
        }
    }
}

} // verus!
