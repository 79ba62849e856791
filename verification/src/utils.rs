use vstd::prelude::*;
use vstd::utf8::is_ascii_chars;
use std::collections::HashMap;

verus! {

broadcast use vstd::std_specs::hash::group_hash_axioms;

/// Names by identifier.
pub struct S {
    pub m: HashMap<u64, String>,
}

impl S {
    /// No names.
    pub fn new() -> (res: Self)
        ensures
            res.m@ == Map::<u64, String>::empty(),
    {
        S { m: HashMap::new() }
    }

    /// The number of characters of the name stored under `id`, or 0 where there is none.
    pub fn f(&self, id: u64) -> (res: usize)
        ensures
            self.m@.contains_key(id) ==> res == self.m@[id]@.len(),
            !self.m@.contains_key(id) ==> res == 0,
    {
        match self.m.get(&id) {
            Some(s) => s.as_str().unicode_len(),
            None => 0,
        }
    }
}

/// `s` with each character that is not ASCII replaced by `_`.
pub open spec fn ascii_form(s: Seq<char>) -> Seq<char> {
    Seq::new(s.len(), |i: int| if s[i] <= '\u{7f}' { s[i] } else { '_' })
}

/// Law: the ASCII form of a string has its length and holds only ASCII
/// characters; it keeps every ASCII character where it stands and puts `_`
/// in place of every other; a string that is ASCII already is its own ASCII form.
pub proof fn lemma_ascii_form(s: Seq<char>)
    ensures
        ascii_form(s).len() == s.len(),
        forall|i: int| 0 <= i < s.len() ==> #[trigger] ascii_form(s)[i] <= '\u{7f}',
        forall|i: int| 0 <= i < s.len() && s[i] <= '\u{7f}' ==> #[trigger] ascii_form(s)[i] == s[i],
        forall|i: int| 0 <= i < s.len() && s[i] > '\u{7f}' ==> #[trigger] ascii_form(s)[i] == '_',
        is_ascii_chars(s) ==> ascii_form(s) == s,
{
    if is_ascii_chars(s) {
        assert(ascii_form(s) =~= s);
    }
}

/// The ASCII form of `s`: each character that is not ASCII becomes `_`.
pub fn ascii(s: &str) -> (res: String)
    ensures
        res@ == ascii_form(s@),
{
    let n = s.unicode_len();
    let underscore = "_";
    proof {
        reveal_strlit("_");
    }
    let mut out = String::new();
    let mut i: usize = 0;
    while i < n
        invariant
            n == s@.len(),
            i <= n,
            underscore@ == seq!['_'],
            out@ == ascii_form(s@).subrange(0, i as int),
        decreases n - i,
    {
        let c = s.get_char(i);
        if c <= '\u{7f}' {
            out.append(s.substring_char(i, i + 1));
        } else {
            out.append(underscore);
        }
        assert(out@ == ascii_form(s@).subrange(0, i + 1));
        i += 1;
    }
    assert(out@ == ascii_form(s@));
    out
}

} // verus!
